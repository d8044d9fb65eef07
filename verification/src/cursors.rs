//! How far the messages of each kind were handled, and what is caught up on.

use serde_json::Value;
use vstd::prelude::*;

use crate::feed::{
    caught_up, id_of, is_catch_up_target, message_id, opt_text, Incoming, MessageModel,
    CODE_JMA_QUAKE, CODE_TSUNAMI,
};
use crate::json::{compact_text, json_text, json_view, views, JsonView};
use crate::text::same;

verus! {

/// How far the messages of one kind were handled.
#[derive(Debug)]
pub struct CursorState {
    /// Whether there is a baseline at all.
    primed: bool,
    /// The latest message that was handled; `None` if the history was empty when the
    /// baseline was taken.
    handled: Option<String>,
    /// The oldest message that could not be handled. While there is one, `handled` stays.
    failed: Option<String>,
    /// The history is still to be looked at.
    catch_up_pending: bool,
}

/// How far the messages of one kind were handled.
pub ghost struct CursorModel {
    pub primed: bool,
    pub handled: Option<Seq<char>>,
    pub failed: Option<Seq<char>>,
    pub catch_up_pending: bool,
}

impl CursorState {
    /// How far the messages were handled.
    pub closed spec fn model(self) -> CursorModel {
        CursorModel {
            primed: self.primed,
            handled: opt_text(self.handled),
            failed: opt_text(self.failed),
            catch_up_pending: self.catch_up_pending,
        }
    }
}

/// Nothing is known yet.
pub open spec fn unprimed() -> CursorModel {
    CursorModel { primed: false, handled: None, failed: None, catch_up_pending: false }
}

/// After a message was handled: it is the latest, unless an older one has failed.
pub open spec fn after_handled(m: CursorModel, id: Seq<char>) -> CursorModel {
    if m.failed is Some && m.failed != Some(id) {
        m
    } else {
        CursorModel { handled: Some(id), failed: None, ..m }
    }
}

/// After a message could not be handled: it is the oldest such, unless there was one.
pub open spec fn after_failed(m: CursorModel, id: Seq<char>) -> CursorModel {
    if m.failed is Some {
        m
    } else {
        CursorModel { failed: Some(id), ..m }
    }
}

/// With a new baseline, which forgets what has failed.
pub open spec fn after_rebase(m: CursorModel, id: Option<Seq<char>>) -> CursorModel {
    CursorModel { primed: true, handled: id, failed: None, ..m }
}

/// With the history still to be looked at, or not.
pub open spec fn after_pending(m: CursorModel, pending: bool) -> CursorModel {
    CursorModel { catch_up_pending: pending, ..m }
}

/// From where messages are caught up on; `None` if nothing is known yet, and an inner
/// `None` if nothing had come when the baseline was taken.
pub open spec fn baseline_of(m: CursorModel) -> Option<Option<Seq<char>>> {
    if m.primed {
        Some(m.handled)
    } else {
        None
    }
}

/// How far the messages were handled, by their code.
#[derive(Debug)]
pub struct Cursors {
    entries: Vec<(i32, CursorState)>,
}

spec fn find_state(entries: Seq<(i32, CursorState)>, code: i32) -> CursorModel
    decreases entries.len(),
{
    if entries.len() == 0 {
        unprimed()
    } else if entries[0].0 == code {
        entries[0].1.model()
    } else {
        find_state(entries.drop_first(), code)
    }
}

proof fn lemma_find_state(entries: Seq<(i32, CursorState)>, i: int)
    requires
        0 <= i < entries.len(),
        forall|j: int| 0 <= j < i ==> (#[trigger] entries[j]).0 != entries[i].0,
    ensures
        find_state(entries, entries[i].0) == entries[i].1.model(),
    decreases i,
{
    if i > 0 {
        let rest = entries.drop_first();
        assert(entries[0].0 != entries[i].0);
        assert forall|j: int| 0 <= j < i - 1 implies (#[trigger] rest[j]).0 != rest[i - 1].0 by {
            assert(rest[j] == entries[j + 1]);
        }
        lemma_find_state(rest, i - 1);
    }
}

proof fn lemma_find_none(entries: Seq<(i32, CursorState)>, code: i32)
    requires
        forall|j: int| 0 <= j < entries.len() ==> (#[trigger] entries[j]).0 != code,
    ensures
        find_state(entries, code) == unprimed(),
    decreases entries.len(),
{
    if entries.len() > 0 {
        assert(entries[0].0 != code);
        let rest = entries.drop_first();
        assert forall|j: int| 0 <= j < rest.len() implies (#[trigger] rest[j]).0 != code by {
            assert(rest[j] == entries[j + 1]);
        }
        lemma_find_none(rest, code);
    }
}

/// Every state is that of an entry, or says that nothing is known.
proof fn lemma_find_some(entries: Seq<(i32, CursorState)>, code: i32)
    ensures
        find_state(entries, code) == unprimed() || exists|j: int|
            0 <= j < entries.len() && (#[trigger] entries[j]).0 == code && entries[j].1.model()
                == find_state(entries, code),
    decreases entries.len(),
{
    if entries.len() > 0 && entries[0].0 != code {
        let rest = entries.drop_first();
        lemma_find_some(rest, code);
        if find_state(rest, code) != unprimed() {
            let j = choose|j: int|
                0 <= j < rest.len() && (#[trigger] rest[j]).0 == code && rest[j].1.model()
                    == find_state(rest, code);
            assert(entries[j + 1] == rest[j]);
        }
    }
}

impl Cursors {
    /// No code has two entries.
    pub closed spec fn wf(self) -> bool {
        forall|i: int, j: int|
            0 <= i < j < self.entries@.len() ==> (#[trigger] self.entries@[i]).0 != (
            #[trigger] self.entries@[j]).0
    }

    /// How far the messages with a code were handled.
    pub closed spec fn state(self, code: i32) -> CursorModel {
        find_state(self.entries@, code)
    }

    /// Some message could not be handled.
    pub open spec fn failing(self) -> bool {
        exists|code: i32| (#[trigger] self.state(code)).failed is Some
    }

    /// The history has to be looked at: a message could not be handled, there is no
    /// baseline yet, or the history could not be looked at before.
    pub open spec fn catch_up_needed(self) -> bool {
        ||| self.failing()
        ||| !self.state(CODE_JMA_QUAKE).primed
        ||| self.state(CODE_JMA_QUAKE).catch_up_pending
        ||| !self.state(CODE_TSUNAMI).primed
        ||| self.state(CODE_TSUNAMI).catch_up_pending
    }

    /// Nothing is known yet.
    pub fn new() -> (r: Self)
        ensures
            r.wf(),
            forall|code: i32| r.state(code) == unprimed(),
    {
        Cursors { entries: Vec::new() }
    }

    fn find(&self, code: i32) -> (r: Option<usize>)
        requires
            self.wf(),
        ensures
            match r {
                Some(i) => {
                    &&& i < self.entries@.len()
                    &&& self.entries@[i as int].0 == code
                    &&& self.state(code) == self.entries@[i as int].1.model()
                },
                None => {
                    &&& self.state(code) == unprimed()
                    &&& forall|j: int|
                        0 <= j < self.entries@.len() ==> (#[trigger] self.entries@[j]).0 != code
                },
            },
    {
        for i in 0..self.entries.len()
            invariant
                self.wf(),
                forall|j: int| 0 <= j < i ==> (#[trigger] self.entries@[j]).0 != code,
        {
            if self.entries[i].0 == code {
                proof {
                    lemma_find_state(self.entries@, i as int);
                }
                return Some(i);
            }
        }
        proof {
            lemma_find_none(self.entries@, code);
        }
        None
    }

    /// The entry of a code; a new one says that nothing is known.
    fn slot(&mut self, code: i32) -> (r: usize)
        requires
            old(self).wf(),
        ensures
            final(self).wf(),
            r < final(self).entries@.len(),
            final(self).entries@[r as int].0 == code,
            final(self).entries@[r as int].1.model() == old(self).state(code),
            forall|c: i32|
                #![trigger final(self).state(c)]
                #![trigger old(self).state(c)]
                final(self).state(c) == old(self).state(c),
    {
        match self.find(code) {
            Some(i) => i,
            None => {
                let ghost before = self.entries@;
                self.entries.push(
                    (
                        code,
                        CursorState {
                            primed: false,
                            handled: None,
                            failed: None,
                            catch_up_pending: false,
                        },
                    ),
                );
                proof {
                    assert forall|c: i32| self.state(c) == find_state(before, c) by {
                        lemma_find_push(before, self.entries@.last(), c);
                        assert(self.entries@ =~= before.push(self.entries@.last()));
                    }
                }
                self.entries.len() - 1
            },
        }
    }

    /// From where messages are caught up on.
    pub fn baseline(&self, code: i32) -> (r: Option<Option<String>>)
        requires
            self.wf(),
        ensures
            match r {
                Some(id) => baseline_of(self.state(code)) == Some(opt_text(id)),
                None => baseline_of(self.state(code)) is None,
            },
    {
        match self.find(code) {
            Some(i) => if self.entries[i].1.primed {
                let handled: Option<String> = match &self.entries[i].1.handled {
                    Some(id) => Some(id.clone()),
                    None => None,
                };
                Some(handled)
            } else {
                None
            },
            None => None,
        }
    }

    /// Takes a new baseline, and forgets what has failed.
    pub fn rebase(&mut self, code: i32, id: Option<String>)
        requires
            old(self).wf(),
        ensures
            final(self).wf(),
            forall|c: i32|
                #[trigger] final(self).state(c) == (if c == code {
                    after_rebase(old(self).state(c), opt_text(id))
                } else {
                    old(self).state(c)
                }),
    {
        let i: usize = self.slot(code);
        let ghost before = self.entries@;
        self.entries[i].1.primed = true;
        self.entries[i].1.handled = id;
        self.entries[i].1.failed = None;
        proof {
            lemma_find_update(before, self.entries@, i as int);
        }
    }

    /// Notes that a message was handled. While an older one has failed, this one does not
    /// count: it would pass over the other.
    pub fn record_handled(&mut self, message: &Incoming)
        requires
            old(self).wf(),
        ensures
            final(self).wf(),
            forall|c: i32|
                #[trigger] final(self).state(c) == (if c == message.code && caught_up(c)
                    && message.id is Some {
                    after_handled(old(self).state(c), message.id->0@)
                } else {
                    old(self).state(c)
                }),
    {
        let id: &String = match &message.id {
            Some(id) => id,
            None => {
                return;
            },
        };
        if !is_catch_up_target(message.code) {
            return;
        }
        let i: usize = self.slot(message.code);
        let other_failed = match &self.entries[i].1.failed {
            Some(failed) => !same(failed.as_str(), id.as_str()),
            None => false,
        };
        if other_failed {
            return;
        }
        let ghost before = self.entries@;
        self.entries[i].1.failed = None;
        self.entries[i].1.handled = Some(id.clone());
        proof {
            lemma_find_update(before, self.entries@, i as int);
        }
    }

    /// Notes that a message could not be handled. Until it is, nothing after it counts.
    pub fn record_failed(&mut self, message: &Incoming)
        requires
            old(self).wf(),
        ensures
            final(self).wf(),
            forall|c: i32|
                #[trigger] final(self).state(c) == (if c == message.code && caught_up(c)
                    && message.id is Some {
                    after_failed(old(self).state(c), message.id->0@)
                } else {
                    old(self).state(c)
                }),
    {
        let id: &String = match &message.id {
            Some(id) => id,
            None => {
                return;
            },
        };
        if !is_catch_up_target(message.code) {
            return;
        }
        let i: usize = self.slot(message.code);
        if self.entries[i].1.failed.is_some() {
            return;
        }
        let ghost before = self.entries@;
        self.entries[i].1.failed = Some(id.clone());
        proof {
            lemma_find_update(before, self.entries@, i as int);
        }
    }

    /// Notes how a message fared with the worker.
    pub fn settle(&mut self, message: &Incoming, handled: bool)
        requires
            old(self).wf(),
        ensures
            final(self).wf(),
            forall|c: i32|
                #[trigger] final(self).state(c) == (if c == message.code && caught_up(c)
                    && message.id is Some {
                    if handled {
                        after_handled(old(self).state(c), message.id->0@)
                    } else {
                        after_failed(old(self).state(c), message.id->0@)
                    }
                } else {
                    old(self).state(c)
                }),
    {
        if handled {
            self.record_handled(message);
        } else {
            self.record_failed(message);
        }
    }

    /// Whether some message could not be handled.
    pub fn has_failures(&self) -> (r: bool)
        requires
            self.wf(),
        ensures
            r == self.failing(),
    {
        for i in 0..self.entries.len()
            invariant
                self.wf(),
                forall|j: int|
                    0 <= j < i ==> (#[trigger] self.entries@[j]).1.model().failed is None,
        {
            if self.entries[i].1.failed.is_some() {
                proof {
                    lemma_find_state(self.entries@, i as int);
                    assert(self.state(self.entries@[i as int].0).failed is Some);
                }
                return true;
            }
        }
        proof {
            assert forall|code: i32| (#[trigger] self.state(code)).failed is None by {
                lemma_find_some(self.entries@, code);
            }
        }
        false
    }

    fn lacks(&self, code: i32) -> (r: bool)
        requires
            self.wf(),
        ensures
            r == (!self.state(code).primed || self.state(code).catch_up_pending),
    {
        match self.find(code) {
            Some(i) => !self.entries[i].1.primed || self.entries[i].1.catch_up_pending,
            None => true,
        }
    }

    /// Whether the history has to be looked at.
    pub fn needs_catch_up(&self) -> (r: bool)
        requires
            self.wf(),
        ensures
            r == self.catch_up_needed(),
    {
        self.has_failures() || self.lacks(CODE_JMA_QUAKE) || self.lacks(CODE_TSUNAMI)
    }

    fn set_pending(&mut self, code: i32, pending: bool)
        requires
            old(self).wf(),
        ensures
            final(self).wf(),
            forall|c: i32|
                #[trigger] final(self).state(c) == (if c == code {
                    after_pending(old(self).state(c), pending)
                } else {
                    old(self).state(c)
                }),
    {
        let i: usize = self.slot(code);
        let ghost before = self.entries@;
        self.entries[i].1.catch_up_pending = pending;
        proof {
            lemma_find_update(before, self.entries@, i as int);
        }
    }

    /// Notes that the history is still to be looked at.
    pub fn mark_catch_up_pending(&mut self, code: i32)
        requires
            old(self).wf(),
        ensures
            final(self).wf(),
            forall|c: i32|
                #[trigger] final(self).state(c) == (if c == code {
                    after_pending(old(self).state(c), true)
                } else {
                    old(self).state(c)
                }),
    {
        self.set_pending(code, true);
    }

    /// Notes that the history was looked at.
    pub fn clear_catch_up_pending(&mut self, code: i32)
        requires
            old(self).wf(),
        ensures
            final(self).wf(),
            forall|c: i32|
                #[trigger] final(self).state(c) == (if c == code {
                    after_pending(old(self).state(c), false)
                } else {
                    old(self).state(c)
                }),
    {
        self.set_pending(code, false);
    }
}

proof fn lemma_find_push(entries: Seq<(i32, CursorState)>, e: (i32, CursorState), code: i32)
    requires
        e.1.model() == unprimed(),
    ensures
        find_state(entries.push(e), code) == find_state(entries, code),
    decreases entries.len(),
{
    if entries.len() > 0 {
        assert(entries.push(e).drop_first() =~= entries.drop_first().push(e));
        lemma_find_push(entries.drop_first(), e, code);
    } else {
        assert(entries.push(e).drop_first() =~= entries);
    }
}

/// One entry changes the state of its code and of no other.
proof fn lemma_find_update(a: Seq<(i32, CursorState)>, b: Seq<(i32, CursorState)>, i: int)
    requires
        a.len() == b.len(),
        0 <= i < a.len(),
        a[i].0 == b[i].0,
        forall|j: int| 0 <= j < a.len() && j != i ==> a[j] == b[j],
        forall|j: int, k: int|
            0 <= j < k < a.len() ==> (#[trigger] a[j]).0 != (#[trigger] a[k]).0,
    ensures
        find_state(b, b[i].0) == b[i].1.model(),
        forall|c: i32| c != a[i].0 ==> #[trigger] find_state(b, c) == find_state(a, c),
{
    assert forall|j: int| 0 <= j < i implies (#[trigger] b[j]).0 != b[i].0 by {
        assert(a[j].0 != a[i].0);
    }
    lemma_find_state(b, i);
    assert forall|c: i32| c != a[i].0 implies #[trigger] find_state(b, c) == find_state(a, c) by {
        lemma_find_same(a, b, i, c);
    }
}

proof fn lemma_find_same(a: Seq<(i32, CursorState)>, b: Seq<(i32, CursorState)>, i: int, c: i32)
    requires
        a.len() == b.len(),
        0 <= i < a.len(),
        a[i].0 == b[i].0,
        c != a[i].0,
        forall|j: int| 0 <= j < a.len() && j != i ==> a[j] == b[j],
    ensures
        find_state(b, c) == find_state(a, c),
    decreases a.len(),
{
    if i == 0 {
        assert(a.drop_first() =~= b.drop_first());
    } else {
        assert(a[0] == b[0]);
        lemma_find_same(a.drop_first(), b.drop_first(), i - 1, c);
    }
}

/// What became of a message that was offered to the worker.
#[derive(Debug, Clone, Copy, PartialEq, Eq, Structural)]
pub enum Offer {
    /// It waits.
    Accepted,
    /// There was no room for it.
    Full,
    /// There is no worker any more.
    Closed,
}

/// Notes what became of a message that was offered to the worker, and tells whether to go on.
///
/// One without room counts as failed, so that it is caught up on: waiting for room would hold
/// up everything that comes in. Without a worker nothing would ever be announced again.
pub fn after_offer(cursors: &mut Cursors, message: &Incoming, offer: Offer) -> (r: bool)
    requires
        old(cursors).wf(),
    ensures
        final(cursors).wf(),
        r == (offer != Offer::Closed),
        forall|c: i32|
            #[trigger] final(cursors).state(c) == (if offer == Offer::Full && c == message.code
                && caught_up(c) && message.id is Some {
                after_failed(old(cursors).state(c), message.id->0@)
            } else {
                old(cursors).state(c)
            }),
{
    match offer {
        Offer::Accepted => true,
        Offer::Full => {
            cursors.record_failed(message);
            true
        },
        Offer::Closed => false,
    }
}

/// Notes that nothing was caught up on: the worker was too busy to keep the order of messages.
pub fn postpone_catch_up(cursors: &mut Cursors)
    requires
        old(cursors).wf(),
    ensures
        final(cursors).wf(),
        forall|c: i32|
            #[trigger] final(cursors).state(c) == (if caught_up(c) {
                after_pending(old(cursors).state(c), true)
            } else {
                old(cursors).state(c)
            }),
{
    cursors.mark_catch_up_pending(CODE_JMA_QUAKE);
    cursors.mark_catch_up_pending(CODE_TSUNAMI);
}

/// How many messages at the beginning of a history, which is newest first, came after the
/// given one.
pub open spec fn newer(items: Seq<JsonView>, previous: Seq<char>) -> nat
    decreases items.len(),
{
    if items.len() == 0 || id_of(items[0]) == Some(previous) {
        0
    } else {
        1 + newer(items.drop_first(), previous)
    }
}

/// The messages of a history that came after the given one, the oldest first; `None` if the
/// history does not reach back to it.
pub open spec fn missed(items: Seq<JsonView>, previous: Seq<char>) -> Option<Seq<JsonView>> {
    let n = newer(items, previous);
    if n >= items.len() {
        None
    } else {
        Some(items.take(n as int).reverse())
    }
}

/// What a list of references refers to.
pub open spec fn referred(list: Seq<&Value>) -> Seq<JsonView> {
    Seq::new(list.len(), |i: int| json_view(*list[i]))
}

/// The first messages of a list, the last of them first.
fn backwards<'a>(items: &'a [Value], n: usize) -> (r: Vec<&'a Value>)
    requires
        n <= items@.len(),
    ensures
        referred(r@) == views(items@).take(n as int).reverse(),
{
    let mut out: Vec<&'a Value> = Vec::new();
    let mut i: usize = n;
    while i > 0
        invariant
            i <= n <= items@.len(),
            out@.len() == n - i,
            forall|j: int| 0 <= j < out@.len() ==> *(#[trigger] out@[j]) == items@[n - 1 - j],
        decreases i,
    {
        i = i - 1;
        out.push(&items[i]);
    }
    assert(referred(out@) =~= views(items@).take(n as int).reverse());
    out
}

/// The messages of a history that came after the given one, the oldest first.
///
/// `None` if the history does not reach back to it: where to begin is not known then, and
/// everything would be too much.
pub fn missed_since<'a>(items: &'a [Value], previous: &str) -> (r: Option<Vec<&'a Value>>)
    ensures
        match r {
            Some(list) => missed(views(items@), previous@) == Some(referred(list@)),
            None => missed(views(items@), previous@) is None,
        },
{
    let ghost all = views(items@);
    let n: usize = items.len();
    let mut i: usize = 0;
    assert(all.skip(0) =~= all);
    while i < n
        invariant
            n == items@.len(),
            i <= n,
            all == views(items@),
            newer(all, previous@) == i + newer(all.skip(i as int), previous@),
        decreases n - i,
    {
        assert(all.skip(i as int)[0] == json_view(items@[i as int]));
        let found = match message_id(&items[i]) {
            Some(id) => same(id, previous),
            None => false,
        };
        if found {
            return Some(backwards(items, i));
        }
        assert(all.skip(i as int).drop_first() =~= all.skip(i + 1));
        i = i + 1;
    }
    None
}

/// What is done about a history.
#[derive(Debug)]
pub enum CatchUp<'a> {
    /// Nothing is caught up on; there is a new baseline.
    Rebase,
    /// These messages are caught up on, the oldest first.
    Missed(Vec<&'a Value>),
}

/// What is caught up on: nothing without a baseline, everything if the history was empty
/// when it was taken, and else what came after it. `None` asks for a new baseline.
pub open spec fn plan(
    items: Seq<JsonView>,
    previous: Option<Option<Seq<char>>>,
) -> Option<Seq<JsonView>> {
    match previous {
        None => None,
        Some(None) => Some(items.reverse()),
        Some(Some(id)) => missed(items, id),
    }
}

/// Decides what is done about a history, which is newest first.
pub fn plan_catch_up<'a>(items: &'a [Value], previous: Option<Option<String>>) -> (r: CatchUp<'a>)
    ensures
        ({
            let from = match previous {
                Some(id) => Some(opt_text(id)),
                None => None,
            };
            match r {
                CatchUp::Rebase => plan(views(items@), from) is None,
                CatchUp::Missed(list) => plan(views(items@), from) == Some(referred(list@)),
            }
        }),
{
    match previous {
        None => CatchUp::Rebase,
        Some(None) => {
            let n: usize = items.len();
            assert(views(items@).take(n as int) =~= views(items@));
            CatchUp::Missed(backwards(items, n))
        },
        Some(Some(id)) => match missed_since(items, id.as_str()) {
            Some(list) => CatchUp::Missed(list),
            None => CatchUp::Rebase,
        },
    }
}

/// The latest message of a history.
pub open spec fn newest(items: Seq<JsonView>) -> Option<Seq<char>> {
    if items.len() == 0 {
        None
    } else {
        id_of(items[0])
    }
}

/// A message out of the history.
pub open spec fn from_history(code: i32, v: JsonView) -> MessageModel {
    MessageModel { code, id: id_of(v), text: json_text(v) }
}

/// The state after a history was looked at.
pub open spec fn after_history(m: CursorModel, items: Seq<JsonView>) -> CursorModel {
    match plan(items, baseline_of(m)) {
        None => after_rebase(after_pending(m, false), newest(items)),
        Some(_) => after_pending(m, false),
    }
}

/// What messages hold.
pub open spec fn models(list: Seq<Incoming>) -> Seq<MessageModel> {
    Seq::new(list.len(), |i: int| list[i].model())
}

/// The messages that are caught up on.
pub open spec fn caught(
    code: i32,
    m: CursorModel,
    items: Seq<JsonView>,
) -> Seq<MessageModel> {
    match plan(items, baseline_of(m)) {
        None => Seq::empty(),
        Some(list) => Seq::new(list.len(), |i: int| from_history(code, list[i])),
    }
}

/// Looks at the history of one kind. What was missed is handed back, the oldest first;
/// without a baseline in the history there is only a new baseline.
///
/// `None` stands for a history that could not be had: it is still to be looked at.
pub fn catch_up(cursors: &mut Cursors, code: i32, history: Option<&[Value]>) -> (r: Vec<Incoming>)
    requires
        old(cursors).wf(),
    ensures
        final(cursors).wf(),
        forall|c: i32| c != code ==> #[trigger] final(cursors).state(c) == old(cursors).state(c),
        match history {
            Some(items) => {
                &&& final(cursors).state(code) == after_history(
                    old(cursors).state(code),
                    views(items@),
                )
                &&& models(r@) == caught(code, old(cursors).state(code), views(items@))
            },
            None => {
                &&& final(cursors).state(code) == after_pending(old(cursors).state(code), true)
                &&& r@.len() == 0
            },
        },
{
    let mut out: Vec<Incoming> = Vec::new();
    assert(models(out@) =~= Seq::<MessageModel>::empty());
    let items: &[Value] = match history {
        Some(items) => items,
        None => {
            cursors.mark_catch_up_pending(code);
            return out;
        },
    };
    let n: usize = items.len();
    let latest: Option<String> = if n == 0 {
        None
    } else {
        assert(views(items@)[0] == json_view(items@[0]));
        match message_id(&items[0]) {
            Some(id) => Some(id.to_owned()),
            None => None,
        }
    };
    let previous = cursors.baseline(code);
    cursors.clear_catch_up_pending(code);
    match plan_catch_up(items, previous) {
        CatchUp::Rebase => {
            cursors.rebase(code, latest);
            out
        },
        CatchUp::Missed(list) => {
            let ghost all = referred(list@);
            for i in 0..list.len()
                invariant
                    all == referred(list@),
                    out@.len() == i,
                    forall|j: int|
                        0 <= j < i ==> (#[trigger] models(out@)[j]) == from_history(code, all[j]),
            {
                let item = list[i];
                assert(all[i as int] == json_view(*item));
                let id: Option<String> = match message_id(item) {
                    Some(id) => Some(id.to_owned()),
                    None => None,
                };
                let ghost before = out@;
                out.push(Incoming { code, id, text: compact_text(item) });
                assert forall|j: int| 0 <= j < i + 1 implies (#[trigger] models(out@)[j])
                    == from_history(code, all[j]) by {
                    if j < i {
                        assert(models(out@)[j] == models(before)[j]);
                    }
                }
            }
            assert(models(out@) =~= Seq::new(all.len(), |i: int| from_history(code, all[i])));
            out
        },
    }
}

/// Without a baseline nothing of the past is caught up on.
pub proof fn lemma_startup_replays_nothing(code: i32, m: CursorModel, items: Seq<JsonView>)
    requires
        !m.primed,
    ensures
        caught(code, m, items).len() == 0,
        baseline_of(after_history(m, items)) == Some(newest(items)),
{
}

/// What was missed and the baseline stand next to each other in the history, and nothing of
/// what was missed is the baseline.
pub proof fn lemma_missed_is_everything_newer(items: Seq<JsonView>, previous: Seq<char>)
    ensures
        match missed(items, previous) {
            Some(list) => {
                let n = list.len() as int;
                &&& n < items.len()
                &&& id_of(items[n]) == Some(previous)
                &&& forall|i: int|
                    0 <= i < n ==> list[n - 1 - i] == #[trigger] items[i] && id_of(items[i])
                        != Some(previous)
            },
            None => forall|i: int|
                0 <= i < items.len() ==> id_of(#[trigger] items[i]) != Some(previous),
        },
{
    lemma_newer(items, previous);
}

proof fn lemma_newer(items: Seq<JsonView>, previous: Seq<char>)
    ensures
        newer(items, previous) <= items.len(),
        newer(items, previous) < items.len() ==> id_of(items[newer(items, previous) as int])
            == Some(previous),
        forall|i: int|
            0 <= i < newer(items, previous) ==> id_of(#[trigger] items[i]) != Some(previous),
    decreases items.len(),
{
    if items.len() > 0 && id_of(items[0]) != Some(previous) {
        let rest = items.drop_first();
        lemma_newer(rest, previous);
        assert forall|i: int| 0 <= i < newer(items, previous) implies id_of(#[trigger] items[i])
            != Some(previous) by {
            if i > 0 {
                assert(rest[i - 1] == items[i]);
            }
        }
    }
}

/// How a message fared.
pub ghost enum Fate {
    Handled(Seq<char>),
    Failed(Seq<char>),
}

/// The state after messages fared as they did, in order.
pub open spec fn after_all(m: CursorModel, fates: Seq<Fate>) -> CursorModel
    decreases fates.len(),
{
    if fates.len() == 0 {
        m
    } else {
        let before = after_all(m, fates.drop_last());
        match fates.last() {
            Fate::Handled(id) => after_handled(before, id),
            Fate::Failed(id) => after_failed(before, id),
        }
    }
}

/// A message that could not be handled holds the baseline where it is, whatever happens to
/// other messages, until it is handled itself.
pub proof fn lemma_failure_holds_the_baseline(m: CursorModel, failed: Seq<char>, fates: Seq<Fate>)
    requires
        m.failed == Some(failed),
        forall|i: int| 0 <= i < fates.len() ==> #[trigger] fates[i] != Fate::Handled(failed),
    ensures
        after_all(m, fates) == m,
    decreases fates.len(),
{
    if fates.len() > 0 {
        assert forall|i: int| 0 <= i < fates.len() - 1 implies #[trigger] fates.drop_last()[i]
            != Fate::Handled(failed) by {
            assert(fates.drop_last()[i] == fates[i]);
        }
        lemma_failure_holds_the_baseline(m, failed, fates.drop_last());
    }
}

/// A message that could not be handled, and came after the baseline, is caught up on,
/// whatever happens to other messages in the meantime.
pub proof fn lemma_failed_message_is_caught_up_on(
    code: i32,
    m: CursorModel,
    failed: Seq<char>,
    fates: Seq<Fate>,
    items: Seq<JsonView>,
    at: int,
)
    requires
        m.primed,
        m.failed == Some(failed),
        forall|i: int| 0 <= i < fates.len() ==> #[trigger] fates[i] != Fate::Handled(failed),
        0 <= at < items.len(),
        id_of(items[at]) == Some(failed),
        m.handled matches Some(id) ==> at < newer(items, id) < items.len(),
    ensures
        caught(code, after_all(m, fates), items).contains(from_history(code, items[at])),
{
    lemma_failure_holds_the_baseline(m, failed, fates);
    let list = plan(items, baseline_of(m))->0;
    let out = caught(code, m, items);
    match m.handled {
        Some(id) => {
            lemma_newer(items, id);
            let n = newer(items, id) as int;
            assert(list[n - 1 - at] == items[at]);
            assert(out[n - 1 - at] == from_history(code, items[at]));
        },
        None => {
            assert(list[items.len() - 1 - at] == items[at]);
            assert(out[items.len() - 1 - at] == from_history(code, items[at]));
        },
    }
}

/// A history that could not be looked at is asked for until it is, whatever happens to
/// messages in the meantime, and so is a first baseline.
pub proof fn lemma_history_is_asked_for_until_seen(
    m: CursorModel,
    fates: Seq<Fate>,
    items: Seq<JsonView>,
)
    ensures
        after_all(after_pending(m, true), fates).catch_up_pending,
        !m.primed ==> !after_all(m, fates).primed,
        after_history(m, items).primed,
        !after_history(m, items).catch_up_pending,
    decreases fates.len(),
{
    if fates.len() > 0 {
        lemma_history_is_asked_for_until_seen(m, fates.drop_last(), items);
    }
}

/// Once everything that was missed is handled, in order, nothing is left to catch up on.
pub proof fn lemma_catching_up_is_complete(
    code: i32,
    m: CursorModel,
    items: Seq<JsonView>,
    fates: Seq<Fate>,
)
    requires
        m.primed,
        m.failed is None,
        plan(items, baseline_of(m)) is Some,
        fates.len() == caught(code, m, items).len(),
        forall|i: int|
            0 <= i < fates.len() ==> caught(code, m, items)[i].id is Some && #[trigger] fates[i]
                == Fate::Handled(caught(code, m, items)[i].id->0),
    ensures
        caught(code, after_all(m, fates), items).len() == 0,
{
    let all = caught(code, m, items);
    lemma_handled_in_order(m, fates);
    if fates.len() == 0 {
        assert(after_all(m, fates) == m);
    } else {
        let list = plan(items, baseline_of(m))->0;
        assert(list.last() == items[0]);
        assert(fates.last() == Fate::Handled(all.last().id->0));
        assert(id_of(items[0]) == Some(all.last().id->0));
        let end = after_all(m, fates);
        assert(end.handled == id_of(items[0]));
        assert(newer(items, end.handled->0) == 0);
    }
}

proof fn lemma_handled_in_order(m: CursorModel, fates: Seq<Fate>)
    requires
        m.failed is None,
        forall|i: int| 0 <= i < fates.len() ==> #[trigger] fates[i] is Handled,
    ensures
        after_all(m, fates).failed is None,
        after_all(m, fates).primed == m.primed,
        fates.len() > 0 ==> fates.last() == Fate::Handled(after_all(m, fates).handled->0)
            && after_all(m, fates).handled is Some,
    decreases fates.len(),
{
    if fates.len() > 0 {
        assert forall|i: int| 0 <= i < fates.len() - 1 implies #[trigger] fates.drop_last()[
            i] is Handled by {
            assert(fates.drop_last()[i] == fates[i]);
        }
        lemma_handled_in_order(m, fates.drop_last());
        assert(fates[fates.len() - 1] is Handled);
    }
}

} // verus!
