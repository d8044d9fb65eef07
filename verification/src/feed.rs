//! The messages of the feed: how they are told apart, where they wait, and when the
//! connection is given up and taken up again.

use serde_json::Value;
use vstd::prelude::*;
use vstd::string::*;

use crate::cursors::Cursors;
use crate::json::{
    as_text, get, get_integer, get_text, json_parse, json_view, parse_value, JsonView,
};
use crate::text::{decimal, decimal_text, same};
use crate::tracker::{keys, lemma_position, position, with_value};

verus! {

/// The code of an earthquake report.
pub const CODE_JMA_QUAKE: i32 = 551;

/// The code of a tsunami forecast.
pub const CODE_TSUNAMI: i32 = 552;

/// The code of an early warning.
pub const CODE_EEW: i32 = 556;

/// Past earthquake reports.
pub const HISTORY_URL: &'static str = "https://api.p2pquake.net/v2/history?codes=551&limit=50";

/// Past early warnings.
pub const HISTORY_EEW_URL: &'static str =
    "https://api.p2pquake.net/v2/history?codes=556&limit=50";

/// Past tsunami forecasts.
pub const HISTORY_TSUNAMI_URL: &'static str =
    "https://api.p2pquake.net/v2/history?codes=552&limit=50";

/// What is caught up on after a disconnection, and where from.
///
/// Early warnings are not: they announce shaking that is still to come, and would mislead
/// once it is over.
pub const CATCH_UP_TARGETS: [(i32, &'static str); 2] = [
    (CODE_JMA_QUAKE, HISTORY_URL),
    (CODE_TSUNAMI, HISTORY_TSUNAMI_URL),
];

/// Whether messages of this kind are caught up on.
pub open spec fn caught_up(code: i32) -> bool {
    code == CODE_JMA_QUAKE || code == CODE_TSUNAMI
}

/// Whether messages of this kind are caught up on.
pub fn is_catch_up_target(code: i32) -> (r: bool)
    ensures
        r == caught_up(code),
{
    let targets: [(i32, &'static str); 2] = CATCH_UP_TARGETS;
    targets[0].0 == code || targets[1].0 == code
}

/// The kinds of messages that are handled.
#[derive(Debug, Clone, Copy, PartialEq, Eq, Structural)]
pub enum Kind {
    Quake,
    Tsunami,
    Eew,
}

/// The kind of message that a code stands for; other codes are passed over.
pub open spec fn kind_for(code: i32) -> Option<Kind> {
    if code == CODE_JMA_QUAKE {
        Some(Kind::Quake)
    } else if code == CODE_EEW {
        Some(Kind::Eew)
    } else if code == CODE_TSUNAMI {
        Some(Kind::Tsunami)
    } else {
        None
    }
}

/// The kind of message that a code stands for.
pub fn kind_of(code: i32) -> (r: Option<Kind>)
    ensures
        r == kind_for(code),
{
    if code == CODE_JMA_QUAKE {
        Some(Kind::Quake)
    } else if code == CODE_EEW {
        Some(Kind::Eew)
    } else if code == CODE_TSUNAMI {
        Some(Kind::Tsunami)
    } else {
        None
    }
}

/// A message on its way to be handled.
#[derive(Debug)]
pub struct Incoming {
    pub code: i32,
    /// Once the message is handled, it is caught up on from here.
    pub id: Option<String>,
    /// The message as received.
    pub text: String,
}

/// What a message holds.
pub ghost struct MessageModel {
    pub code: i32,
    pub id: Option<Seq<char>>,
    pub text: Seq<char>,
}

/// What an optional text holds.
pub open spec fn opt_text(s: Option<String>) -> Option<Seq<char>> {
    match s {
        Some(x) => Some(x@),
        None => None,
    }
}

impl Incoming {
    /// What the message holds.
    pub open spec fn model(self) -> MessageModel {
        MessageModel { code: self.code, id: opt_text(self.id), text: self.text@ }
    }
}

/// The ID of a message. It goes by `_id` on the wire and by `id` in the history.
pub open spec fn id_of(v: JsonView) -> Option<Seq<char>> {
    match v.member("_id"@) {
        Some(JsonView::Text(s)) => Some(s),
        Some(_) => None,
        None => v.member_text("id"@),
    }
}

/// The ID of a message.
pub fn message_id(value: &Value) -> (r: Option<&str>)
    ensures
        match r {
            Some(s) => id_of(json_view(*value)) == Some(s@),
            None => id_of(json_view(*value)) is None,
        },
{
    match get(value, "_id") {
        Some(x) => as_text(x),
        None => get_text(value, "id"),
    }
}

/// The event that an early warning is about.
pub open spec fn event_of(v: JsonView) -> Option<Seq<char>> {
    match v.member("issue"@) {
        Some(issue) => match issue.member_text("eventId"@) {
            Some(id) => if id.len() > 0 {
                Some(id)
            } else {
                None
            },
            None => None,
        },
        None => None,
    }
}

/// The event that an early warning is about; `None` if it names none.
pub fn event_id(value: &Value) -> (r: Option<&str>)
    ensures
        match r {
            Some(s) => event_of(json_view(*value)) == Some(s@),
            None => event_of(json_view(*value)) is None,
        },
{
    match get(value, "issue") {
        Some(issue) => match get_text(issue, "eventId") {
            Some(id) => if id.is_empty() {
                None
            } else {
                Some(id)
            },
            None => None,
        },
        None => None,
    }
}

/// The lower 32 bits of a number, as a number with a sign.
pub open spec fn low_word(n: int) -> int {
    (n + 0x8000_0000) % 0x1_0000_0000 - 0x8000_0000
}

fn lower(n: i64) -> (r: i32)
    ensures
        r == low_word(n as int),
{
    let shifted: i128 = n as i128 + 0x8000_0000_8000_0000;
    assert(shifted % 0x1_0000_0000 == (n + 0x8000_0000) % 0x1_0000_0000) by (nonlinear_arith)
        requires
            shifted == n + 0x8000_0000 + 0x1_0000_0000 * 0x8000_0000,
    ;
    (shifted % 0x1_0000_0000 - 0x8000_0000) as i32
}

/// Where a message goes.
#[derive(Debug)]
pub enum Route {
    /// It is passed over.
    Ignored,
    /// Into the queue of early warnings.
    Eew { event_id: String, message: Incoming },
    /// To the worker of the other kinds.
    Worker { message: Incoming },
}

/// Where a message goes, and what it holds.
pub ghost enum RouteModel {
    Ignored,
    Eew(Seq<char>, MessageModel),
    Worker(MessageModel),
}

impl Route {
    /// Where the message goes, and what it holds.
    pub open spec fn model(self) -> RouteModel {
        match self {
            Route::Ignored => RouteModel::Ignored,
            Route::Eew { event_id, message } => RouteModel::Eew(event_id@, message.model()),
            Route::Worker { message } => RouteModel::Worker(message.model()),
        }
    }
}

/// Where a message goes: early warnings that name an event into their queue, earthquake
/// reports and tsunami forecasts to the worker, and everything else nowhere.
pub open spec fn route_for(v: JsonView, text: Seq<char>) -> RouteModel {
    match v.member_integer("code"@) {
        Some(n) => {
            let code = low_word(n) as i32;
            let message = MessageModel { code, id: id_of(v), text };
            match kind_for(code) {
                Some(Kind::Eew) => match event_of(v) {
                    Some(event) => RouteModel::Eew(event, message),
                    None => RouteModel::Ignored,
                },
                Some(_) => RouteModel::Worker(message),
                None => RouteModel::Ignored,
            }
        },
        None => RouteModel::Ignored,
    }
}

/// Decides where a message goes.
pub fn route_value(value: &Value, text: &str) -> (r: Route)
    ensures
        r.model() == route_for(json_view(*value), text@),
{
    let code: i32 = match get_integer(value, "code") {
        Some(n) => lower(n),
        None => {
            return Route::Ignored;
        },
    };
    let id: Option<String> = match message_id(value) {
        Some(s) => Some(s.to_owned()),
        None => None,
    };
    match kind_of(code) {
        Some(Kind::Eew) => match event_id(value) {
            Some(event) => Route::Eew {
                event_id: event.to_owned(),
                message: Incoming { code, id, text: text.to_owned() },
            },
            None => Route::Ignored,
        },
        Some(_) => Route::Worker { message: Incoming { code, id, text: text.to_owned() } },
        None => Route::Ignored,
    }
}

/// Where a text goes; what is not JSON goes nowhere.
pub open spec fn route_of_text(text: Seq<char>) -> RouteModel {
    match json_parse(text) {
        Some(v) => route_for(v, text),
        None => RouteModel::Ignored,
    }
}

/// Decides where a text goes.
pub fn route_text(text: &str) -> (r: Route)
    ensures
        r.model() == route_of_text(text@),
{
    match parse_value(text) {
        Some(value) => route_value(&value, text),
        None => Route::Ignored,
    }
}

/// How many early warnings wait at most. There is one for each earthquake under way.
pub const EEW_QUEUE_CAPACITY: usize = 32;

/// An early warning that waits.
#[derive(Debug)]
pub struct PendingEew {
    /// The event; a later warning about it takes its place.
    pub event_id: String,
    /// When it was received, in nanoseconds of a steady clock.
    pub received: u128,
    pub message: Incoming,
}

/// The early warnings that wait, the oldest first: for each event the latest.
#[derive(Debug)]
pub struct EewQueue {
    waiting: Vec<PendingEew>,
}

impl View for EewQueue {
    type V = Seq<(Seq<char>, PendingEew)>;

    closed spec fn view(&self) -> Seq<(Seq<char>, PendingEew)> {
        Seq::new(self.waiting@.len(), |i: int| (self.waiting@[i].event_id@, self.waiting@[i]))
    }
}

/// A queue after a warning came: it takes the place of an earlier one about the same
/// event, or goes to the end, and then the oldest makes room.
pub open spec fn queued(
    queue: Seq<(Seq<char>, PendingEew)>,
    p: PendingEew,
) -> Seq<(Seq<char>, PendingEew)> {
    let longer = with_value(queue, p.event_id@, p);
    if longer.len() > EEW_QUEUE_CAPACITY {
        longer.drop_first()
    } else {
        longer
    }
}

impl EewQueue {
    /// No event waits twice, nor do more events wait than there is room for.
    pub open spec fn wf(self) -> bool {
        keys(self@).no_duplicates() && self@.len() <= EEW_QUEUE_CAPACITY
    }

    /// Nothing waits.
    pub fn new() -> (r: Self)
        ensures
            r.wf(),
            r@ == Seq::<(Seq<char>, PendingEew)>::empty(),
    {
        let r = EewQueue { waiting: Vec::new() };
        assert(r@ =~= Seq::<(Seq<char>, PendingEew)>::empty());
        r
    }

    /// How many events wait.
    pub fn len(&self) -> (r: usize)
        ensures
            r == self@.len(),
    {
        self.waiting.len()
    }

    /// The warning at a position.
    pub fn get(&self, i: usize) -> (r: Option<&PendingEew>)
        ensures
            match r {
                Some(p) => i < self@.len() && self@[i as int] == (p.event_id@, *p),
                None => i >= self@.len(),
            },
    {
        if i < self.waiting.len() {
            Some(&self.waiting[i])
        } else {
            None
        }
    }

    /// Lets a warning wait.
    pub fn push(&mut self, event_id: String, received: u128, message: Incoming)
        requires
            old(self).wf(),
        ensures
            final(self).wf(),
            final(self)@ == queued(
                old(self)@,
                (PendingEew { event_id, received, message }),
            ),
    {
        let ghost before = self@;
        let pending = PendingEew { event_id, received, message };
        let ghost p = pending;
        let ghost longer = with_value(before, p.event_id@, p);
        let n: usize = self.waiting.len();
        let mut i: usize = 0;
        proof {
            lemma_position(before, p.event_id@);
        }
        while i < n && !same(self.waiting[i].event_id.as_str(), pending.event_id.as_str())
            invariant
                n == self.waiting@.len(),
                i <= n,
                self@ == before,
                pending == p,
                forall|j: int| 0 <= j < i ==> (#[trigger] before[j]).0 != p.event_id@,
            decreases n - i,
        {
            assert(before[i as int].0 == self.waiting@[i as int].event_id@);
            i = i + 1;
        }
        if i < n {
            assert(before[i as int].0 == self.waiting@[i as int].event_id@);
            self.waiting[i] = pending;
            proof {
                assert(position(before, p.event_id@) == Some(i as int));
                assert(self@ =~= longer);
                assert(keys(self@) =~= keys(before));
            }
        } else {
            self.waiting.push(pending);
            proof {
                assert(position(before, p.event_id@) is None);
                assert(self@ =~= longer);
                assert forall|a: int, b: int| 0 <= a < longer.len() && 0 <= b < longer.len() && a
                    != b implies keys(longer)[a] != keys(longer)[b] by {
                    if a < before.len() && b < before.len() {
                        assert(keys(longer)[a] == keys(before)[a]);
                        assert(keys(longer)[b] == keys(before)[b]);
                    } else if a < before.len() {
                        assert(before[a].0 != p.event_id@);
                    } else {
                        assert(before[b].0 != p.event_id@);
                    }
                }
            }
            if self.waiting.len() > EEW_QUEUE_CAPACITY {
                let _ = self.waiting.remove(0);
                assert(self@ =~= longer.drop_first());
                assert(keys(self@) =~= keys(longer).drop_first());
            }
        }
    }

    /// Takes the oldest warning.
    pub fn pop(&mut self) -> (r: Option<PendingEew>)
        requires
            old(self).wf(),
        ensures
            final(self).wf(),
            match r {
                Some(p) => {
                    &&& old(self)@.len() > 0
                    &&& old(self)@[0] == (p.event_id@, p)
                    &&& final(self)@ == old(self)@.drop_first()
                },
                None => old(self)@.len() == 0 && final(self)@ == old(self)@,
            },
    {
        let ghost before = self@;
        if self.waiting.len() == 0 {
            return None;
        }
        let p = self.waiting.remove(0);
        assert(before[0] == (p.event_id@, p));
        assert(self@ =~= before.drop_first());
        assert(keys(self@) =~= keys(before).drop_first());
        Some(p)
    }
}

/// The latest warning about an event is the one that waits, and what waits about other
/// events is untouched as long as there is room.
pub proof fn lemma_latest_warning_waits(
    queue: Seq<(Seq<char>, PendingEew)>,
    p: PendingEew,
    other: Seq<char>,
)
    requires
        keys(queue).no_duplicates(),
        queue.len() <= EEW_QUEUE_CAPACITY,
    ensures
        queued(queue, p).len() <= EEW_QUEUE_CAPACITY,
        exists|i: int|
            0 <= i < queued(queue, p).len() && #[trigger] queued(queue, p)[i] == (p.event_id@, p),
        position(queue, p.event_id@) is Some ==> queued(queue, p).len() == queue.len(),
        queue.len() < EEW_QUEUE_CAPACITY && other != p.event_id@ && position(queue, other) is Some
            ==> queued(queue, p).contains(queue[position(queue, other)->0]),
{
    lemma_position(queue, p.event_id@);
    lemma_position(queue, other);
    let longer = with_value(queue, p.event_id@, p);
    let q = queued(queue, p);
    let at = match position(queue, p.event_id@) {
        Some(i) => i,
        None => longer.len() - 1,
    };
    assert(longer[at] == (p.event_id@, p));
    if longer.len() > EEW_QUEUE_CAPACITY {
        assert(q[at - 1] == longer[at]);
    } else {
        assert(q[at] == longer[at]);
        if other != p.event_id@ && position(queue, other) is Some {
            let k = position(queue, other)->0;
            assert(q[k] == queue[k]);
        }
    }
}

/// How long an early warning is worth posting, in nanoseconds: three minutes.
pub const EEW_MAX_AGE: u128 = 180_000_000_000;

/// Whether a warning that waited this long, in nanoseconds, is no longer posted: it would
/// announce shaking that is over.
pub fn is_stale(age: u128) -> (r: bool)
    ensures
        r == (age > EEW_MAX_AGE),
{
    age > EEW_MAX_AGE
}

/// Puts a received text where it goes. Early warnings wait in the queue; what goes to the
/// worker is handed back.
pub fn dispatch(text: &str, received: u128, queue: &mut EewQueue) -> (r: Option<Incoming>)
    requires
        old(queue).wf(),
    ensures
        final(queue).wf(),
        match route_of_text(text@) {
            RouteModel::Ignored => r is None && final(queue)@ == old(queue)@,
            RouteModel::Eew(event, message) => {
                &&& r is None
                &&& exists|p: PendingEew|
                    {
                        &&& p.event_id@ == event
                        &&& p.received == received
                        &&& p.message.model() == message
                        &&& final(queue)@ == #[trigger] queued(old(queue)@, p)
                    }
            },
            RouteModel::Worker(message) => {
                &&& r is Some
                &&& r->0.model() == message
                &&& final(queue)@ == old(queue)@
            },
        },
{
    match route_text(text) {
        Route::Ignored => None,
        Route::Eew { event_id, message } => {
            let ghost p = PendingEew { event_id, received, message };
            let ghost before = queue@;
            queue.push(event_id, received, message);
            assert(queue@ == queued(before, p));
            None
        },
        Route::Worker { message } => Some(message),
    }
}

/// The shortest wait before a new connection, in milliseconds.
pub const BACKOFF_MIN: u64 = 500;

/// The longest wait before a new connection, in milliseconds: early warnings are a matter
/// of seconds.
pub const BACKOFF_MAX: u64 = 8_000;

/// The wait after a connection was refused because there were too many, in milliseconds.
pub const BACKOFF_RATE_LIMITED: u64 = 10_000;

/// A connection that held this long was a good one, in nanoseconds.
pub const STABLE_CONNECTION: u128 = 60_000_000_000;

/// A connection is given up after this many seconds without a message. The server sends a
/// ping every 54 seconds or so.
pub const IDLE_TIMEOUT: u64 = 75;

/// A connection has to be made within this many seconds.
pub const CONNECT_TIMEOUT: u64 = 15;

/// The history of one kind has to arrive within this many seconds.
pub const CATCH_UP_TIMEOUT: u64 = 5;

/// Failed messages are caught up on at this interval, in seconds.
pub const FAILED_RETRY_INTERVAL: u64 = 60;

/// How many messages wait for the worker at most.
pub const WORKER_QUEUE_CAPACITY: usize = 256;

/// The queue of the worker has to empty within this many seconds.
pub const DRAIN_TIMEOUT: u64 = 5;

/// A map has to be drawn within this many seconds.
pub const MAP_TIMEOUT: u64 = 10;

/// Twice as long, up to the longest wait.
pub open spec fn doubled(wait: u64) -> u64 {
    if wait >= BACKOFF_MAX / 2 {
        BACKOFF_MAX
    } else {
        (2 * wait) as u64
    }
}

/// The wait after the next one: twice as long, up to the longest.
pub fn next_backoff(current: u64) -> (r: u64)
    ensures
        r == doubled(current),
        r == (if 2 * current <= BACKOFF_MAX {
            2 * current
        } else {
            BACKOFF_MAX as int
        }),
{
    if current >= BACKOFF_MAX / 2 {
        BACKOFF_MAX
    } else {
        2 * current
    }
}

/// The wait after a number of failures in a row.
pub open spec fn backoff_after(failures: nat) -> u64
    decreases failures,
{
    if failures == 0 {
        BACKOFF_MIN
    } else {
        doubled(backoff_after((failures - 1) as nat))
    }
}

/// The wait grows with the failures, from half a second to eight seconds, and stays there
/// from the fourth failure on.
pub proof fn lemma_backoff(failures: nat)
    ensures
        BACKOFF_MIN <= backoff_after(failures) <= BACKOFF_MAX,
        backoff_after(failures) <= backoff_after(failures + 1),
        failures >= 4 ==> backoff_after(failures) == BACKOFF_MAX,
    decreases failures,
{
    reveal_with_fuel(backoff_after, 6);
    if failures > 4 {
        lemma_backoff((failures - 1) as nat);
    }
}

/// The status of a connection that was refused because there were too many.
pub const TOO_MANY_REQUESTS: u16 = 429;

/// Whether a connection was refused because there were too many, by the HTTP status of
/// the refusal.
pub fn is_rate_limited(status: Option<u16>) -> (r: bool)
    ensures
        r == (status == Some(TOO_MANY_REQUESTS)),
{
    match status {
        Some(code) => code == TOO_MANY_REQUESTS,
        None => false,
    }
}

/// The wait before the next connection and the wait to go on from, both in milliseconds.
/// `up` is how long the last connection held, in nanoseconds.
pub fn reconnect(backoff: u64, up: u128, rate_limited: bool) -> (r: (u64, u64))
    ensures
        ({
            let base = if up >= STABLE_CONNECTION {
                BACKOFF_MIN
            } else {
                backoff
            };
            &&& r.0 == (if rate_limited {
                BACKOFF_RATE_LIMITED
            } else {
                base
            })
            &&& r.1 == doubled(base)
        }),
{
    let base: u64 = if up >= STABLE_CONNECTION {
        BACKOFF_MIN
    } else {
        backoff
    };
    let wait: u64 = if rate_limited {
        BACKOFF_RATE_LIMITED
    } else {
        base
    };
    (wait, next_backoff(base))
}

/// What happens on a connection.
#[derive(Debug)]
pub enum SessionEvent {
    /// Nothing came for the whole idle time.
    Idle,
    /// It is time to look after failed messages.
    RetryTick,
    /// A text came.
    Text(String),
    /// Something else came that asks for nothing.
    Other,
    /// The server says that it closes the connection.
    Close,
    /// The connection is at its end.
    End,
}

/// What is done about it.
#[derive(Debug)]
pub enum SessionStep {
    /// The connection is given up, for this reason.
    Fail(String),
    /// The history is caught up on.
    CatchUp,
    /// A message is handed to the worker.
    Enqueue(Incoming),
    /// Nothing.
    Continue,
    /// The session ends in order.
    Stop,
}

/// Why an idle connection is given up.
pub open spec fn idle_reason() -> Seq<char> {
    decimal_text(IDLE_TIMEOUT as nat) + " 秒間受信がありません。接続が切れたとみなします"@
}

/// Decides what is done about an event of the connection.
pub fn session_step(
    event: SessionEvent,
    received: u128,
    queue: &mut EewQueue,
    cursors: &Cursors,
) -> (r: SessionStep)
    requires
        old(queue).wf(),
        cursors.wf(),
    ensures
        final(queue).wf(),
        match event {
            SessionEvent::Text(text) => match route_of_text(text@) {
                RouteModel::Ignored => r is Continue && final(queue)@ == old(queue)@,
                RouteModel::Eew(event, message) => {
                    &&& r is Continue
                    &&& exists|p: PendingEew|
                        {
                            &&& p.event_id@ == event
                            &&& p.received == received
                            &&& p.message.model() == message
                            &&& final(queue)@ == #[trigger] queued(old(queue)@, p)
                        }
                },
                RouteModel::Worker(message) => {
                    &&& final(queue)@ == old(queue)@
                    &&& match r {
                        SessionStep::Enqueue(m) => m.model() == message,
                        _ => false,
                    }
                },
            },
            _ => {
                &&& final(queue)@ == old(queue)@
                &&& match event {
                    SessionEvent::Idle => match r {
                        SessionStep::Fail(reason) => reason@ == idle_reason(),
                        _ => false,
                    },
                    SessionEvent::RetryTick => if cursors.catch_up_needed() {
                        r is CatchUp
                    } else {
                        r is Continue
                    },
                    SessionEvent::Other => r is Continue,
                    _ => r is Stop,
                }
            },
        },
{
    match event {
        SessionEvent::Idle => SessionStep::Fail(
            decimal(IDLE_TIMEOUT).concat(" 秒間受信がありません。接続が切れたとみなします"),
        ),
        SessionEvent::RetryTick => if cursors.needs_catch_up() {
            SessionStep::CatchUp
        } else {
            SessionStep::Continue
        },
        SessionEvent::Text(text) => match dispatch(text.as_str(), received, queue) {
            Some(message) => SessionStep::Enqueue(message),
            None => SessionStep::Continue,
        },
        SessionEvent::Other => SessionStep::Continue,
        SessionEvent::Close => SessionStep::Stop,
        SessionEvent::End => SessionStep::Stop,
    }
}

} // verus!
