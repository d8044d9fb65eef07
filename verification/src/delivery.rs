//! How a payload is sent: what a failed attempt means, and whether it is made again.

use serde_json::Value;
use vstd::prelude::*;
use vstd::string::*;

use crate::discord::MAP_FILE_NAME;
use crate::json::{
    copy_value, empty_object, get_text, is_object, json_parse, json_view, list_value, number_value,
    parse_value, put, text_value, views, JsonView,
};

verus! {

/// How often a request is tried.
pub const MAX_ATTEMPTS: u32 = 3;

/// The wait before the second attempt, in nanoseconds: half a second.
pub const RETRY_WAIT: u128 = 500_000_000;

/// The longest wait before another attempt, in nanoseconds: five seconds. What takes longer
/// comes too late.
pub const RETRY_WAIT_MAX: u128 = 5_000_000_000;

/// Whether a caller may send again what has failed.
#[derive(Debug, Clone, Copy, PartialEq, Eq, Structural)]
pub enum Retryable {
    /// It did not arrive, or sending it twice changes nothing.
    Safe,
    /// It may have arrived; sent again, it would be posted twice.
    Unsafe,
}

impl Retryable {
    /// How this reads.
    pub open spec fn text(self) -> Seq<char> {
        match self {
            Retryable::Safe => "再送可"@,
            Retryable::Unsafe => "再送不可（二重投稿のおそれ）"@,
        }
    }

    /// Writes this out.
    pub fn label(&self) -> (r: &'static str)
        ensures
            r@ == self.text(),
    {
        match self {
            Retryable::Safe => "再送可",
            Retryable::Unsafe => "再送不可（二重投稿のおそれ）",
        }
    }
}

/// Why something was not sent. What failed before it could be sent has no mark.
#[derive(Debug)]
pub struct SendError {
    pub message: String,
    pub mark: Option<Retryable>,
}

/// Whether what failed may be sent again. Without a mark it was never sent.
pub fn retry_is_safe(error: &SendError) -> (r: bool)
    ensures
        r == (error.mark != Some(Retryable::Unsafe)),
{
    match error.mark {
        Some(Retryable::Unsafe) => false,
        _ => true,
    }
}

/// Whether a request may be made again.
#[derive(Debug, Clone, Copy, PartialEq, Eq, Structural)]
pub enum Retry {
    /// Made again, it changes nothing: an edit.
    Idempotent,
    /// It creates a message. Made again after an unclear failure, it would create a second
    /// one, and the first could no longer be replaced.
    CreateOnce,
}

/// What a caller may do about a failure.
pub fn classify(ambiguous: bool) -> (r: Retryable)
    ensures
        r == (if ambiguous {
            Retryable::Unsafe
        } else {
            Retryable::Safe
        }),
{
    if ambiguous {
        Retryable::Unsafe
    } else {
        Retryable::Safe
    }
}

/// What became of an attempt.
#[derive(Debug)]
pub enum Reply {
    /// There was an answer.
    Answer {
        status: u16,
        /// The status as it is printed.
        status_text: String,
        /// How long the server asks to wait, in nanoseconds.
        after: Option<u128>,
        /// That time as it is printed.
        after_text: String,
        body: String,
    },
    /// There was none.
    Failure {
        /// The connection was never made.
        connect: bool,
        /// What went wrong.
        text: String,
    },
}

/// Where the attempts stand.
#[derive(Debug, Clone, Copy, PartialEq, Eq, Structural)]
pub struct SendState {
    /// The number of the attempt, from 1.
    pub attempt: u32,
    /// The wait before the next one, in nanoseconds.
    pub wait: u128,
}

impl SendState {
    /// A state that attempts can be in.
    pub open spec fn wf(self) -> bool {
        1 <= self.attempt <= MAX_ATTEMPTS && self.wait <= RETRY_WAIT_MAX
    }

    /// Before the first attempt.
    pub fn first() -> (r: SendState)
        ensures
            r.wf(),
            r == (SendState { attempt: 1, wait: RETRY_WAIT }),
    {
        SendState { attempt: 1, wait: RETRY_WAIT }
    }
}

/// What is done about an attempt.
#[derive(Debug)]
pub enum SendStep {
    /// It was accepted; this is the answer.
    Done(String),
    /// It is given up.
    GiveUp(SendError),
    /// After a wait, in nanoseconds, there is another attempt.
    Again { wait: u128, next: SendState },
}

/// What is done about an attempt, by what the texts hold.
pub ghost enum StepModel {
    Done(Seq<char>),
    GiveUp(Seq<char>, Retryable),
    Again(u128, SendState),
}

impl SendStep {
    /// What is done, by what the texts hold. A request that was sent has a mark.
    pub open spec fn model(self) -> Option<StepModel> {
        match self {
            SendStep::Done(body) => Some(StepModel::Done(body@)),
            SendStep::GiveUp(e) => match e.mark {
                Some(mark) => Some(StepModel::GiveUp(e.message@, mark)),
                None => None,
            },
            SendStep::Again { wait, next } => Some(StepModel::Again(wait, next)),
        }
    }
}

/// A status of success.
pub open spec fn accepted(status: u16) -> bool {
    200 <= status < 300
}

/// A status that says that the server failed: it may have done what was asked.
pub open spec fn server_failed(status: u16) -> bool {
    500 <= status < 600
}

/// The status of a request that was turned away because there were too many.
pub const TURNED_AWAY: u16 = 429;

/// The next attempt after a wait: the wait after it is three times as long, within limits.
pub open spec fn again(state: SendState, wait: u128) -> StepModel {
    let longer = if 3 * wait <= RETRY_WAIT_MAX {
        (3 * wait) as u128
    } else {
        RETRY_WAIT_MAX
    };
    StepModel::Again(wait, SendState { attempt: (state.attempt + 1) as u32, wait: longer })
}

/// What a mark says about a failure that is unclear, or not.
pub open spec fn marked(ambiguous: bool) -> Retryable {
    if ambiguous {
        Retryable::Unsafe
    } else {
        Retryable::Safe
    }
}

/// What is done about an attempt.
///
/// Another attempt is made if the request was turned away, if the connection was not made,
/// and, where that changes nothing, after other failures of the connection or the server.
pub open spec fn step_for(
    state: SendState,
    reply: Reply,
    retry: Retry,
    what: Seq<char>,
) -> StepModel {
    let last = state.attempt >= MAX_ATTEMPTS;
    match reply {
        Reply::Answer { status, status_text, after, after_text, body } => {
            let retryable = status == TURNED_AWAY || (server_failed(status) && retry
                == Retry::Idempotent);
            if accepted(status) {
                StepModel::Done(body@)
            } else if !retryable || last {
                StepModel::GiveUp(
                    what + "がエラー応答: "@ + status_text@ + " "@ + body@,
                    marked(server_failed(status) && retry == Retry::CreateOnce),
                )
            } else {
                match after {
                    Some(asked) => if asked > RETRY_WAIT_MAX {
                        StepModel::GiveUp(
                            what + "がレート制限: "@ + after_text@
                                + " の待機が必要なため諦めます"@,
                            Retryable::Safe,
                        )
                    } else {
                        again(state, asked)
                    },
                    None => again(state, state.wait),
                }
            }
        },
        Reply::Failure { connect, text } => {
            let ambiguous = retry == Retry::CreateOnce && !connect;
            if last || ambiguous {
                StepModel::GiveUp(what + ": "@ + text@, marked(ambiguous))
            } else {
                again(state, state.wait)
            }
        },
    }
}

fn wait_and_retry(state: SendState, wait: u128) -> (r: SendStep)
    requires
        state.attempt < MAX_ATTEMPTS,
        wait <= RETRY_WAIT_MAX,
    ensures
        r.model() == Some(again(state, wait)),
{
    let longer: u128 = if 3 * wait <= RETRY_WAIT_MAX {
        3 * wait
    } else {
        RETRY_WAIT_MAX
    };
    SendStep::Again { wait, next: SendState { attempt: state.attempt + 1, wait: longer } }
}

/// Decides what is done about an attempt. `what` names the request.
pub fn after_attempt(state: SendState, reply: Reply, retry: Retry, what: &str) -> (r: SendStep)
    requires
        state.wf(),
    ensures
        r.model() == Some(step_for(state, reply, retry, what@)),
        r matches SendStep::Again { wait, next } ==> next.wf() && next.attempt == state.attempt + 1
            && wait <= RETRY_WAIT_MAX,
{
    let last = state.attempt >= MAX_ATTEMPTS;
    match reply {
        Reply::Answer { status, status_text, after, after_text, body } => {
            if 200 <= status && status < 300 {
                return SendStep::Done(body);
            }
            let failed = 500 <= status && status < 600;
            let retryable = status == TURNED_AWAY || (failed && retry == Retry::Idempotent);
            if !retryable || last {
                return SendStep::GiveUp(
                    SendError {
                        message: what.to_owned().concat("がエラー応答: ").concat(
                            status_text.as_str(),
                        ).concat(" ").concat(body.as_str()),
                        mark: Some(classify(failed && retry == Retry::CreateOnce)),
                    },
                );
            }
            match after {
                Some(asked) => if asked > RETRY_WAIT_MAX {
                    SendStep::GiveUp(
                        SendError {
                            message: what.to_owned().concat("がレート制限: ").concat(
                                after_text.as_str(),
                            ).concat(" の待機が必要なため諦めます"),
                            mark: Some(Retryable::Safe),
                        },
                    )
                } else {
                    wait_and_retry(state, asked)
                },
                None => wait_and_retry(state, state.wait),
            }
        },
        Reply::Failure { connect, text } => {
            let ambiguous = retry == Retry::CreateOnce && !connect;
            if last || ambiguous {
                SendStep::GiveUp(
                    SendError {
                        message: what.to_owned().concat(": ").concat(text.as_str()),
                        mark: Some(classify(ambiguous)),
                    },
                )
            } else {
                wait_and_retry(state, state.wait)
            }
        },
    }
}

/// Whether it is certain that nothing came of an attempt to create a message: it was turned
/// away for some reason of its own, or it never arrived.
pub open spec fn came_to_nothing(reply: Reply) -> bool {
    match reply {
        Reply::Answer { status, .. } => !accepted(status) && !server_failed(status),
        Reply::Failure { connect, .. } => connect,
    }
}

/// A message is never created twice: a request that creates one is made again only if there
/// were too many or if it never arrived, and what is given up is marked as safe to send
/// again exactly if nothing came of it.
pub proof fn lemma_nothing_is_posted_twice(state: SendState, reply: Reply, what: Seq<char>)
    requires
        state.wf(),
    ensures
        ({
            let step = step_for(state, reply, Retry::CreateOnce, what);
            &&& step is Again ==> came_to_nothing(reply) && match reply {
                Reply::Answer { status, .. } => status == TURNED_AWAY,
                Reply::Failure { connect, .. } => connect,
            }
            &&& step matches StepModel::GiveUp(_, mark) ==> (mark == Retryable::Safe
                <==> came_to_nothing(reply))
        }),
{
}

/// An edit can always be sent again.
pub proof fn lemma_edits_are_safe(state: SendState, reply: Reply, what: Seq<char>)
    requires
        state.wf(),
    ensures
        step_for(state, reply, Retry::Idempotent, what) matches StepModel::GiveUp(_, mark) ==> mark
            == Retryable::Safe,
{
}

/// Attempts come to an end: each is followed by one of a higher number, and the last by none.
pub proof fn lemma_attempts_end(state: SendState, reply: Reply, retry: Retry, what: Seq<char>)
    requires
        state.wf(),
    ensures
        step_for(state, reply, retry, what) matches StepModel::Again(wait, next) ==> {
            &&& next.attempt == state.attempt + 1
            &&& next.attempt <= MAX_ATTEMPTS
            &&& wait <= RETRY_WAIT_MAX
            &&& next.wf()
        },
{
}

/// Where a message is created so that its ID comes back.
pub fn post_url(webhook_url: &str) -> (r: String)
    ensures
        r@ == webhook_url@ + "?wait=true"@,
{
    webhook_url.to_owned().concat("?wait=true")
}

/// Where a message is edited.
pub fn edit_url(webhook_url: &str, message_id: &str) -> (r: String)
    ensures
        r@ == webhook_url@ + "/messages/"@ + message_id@,
{
    webhook_url.to_owned().concat("/messages/").concat(message_id)
}

/// The ID in the answer to a request that created a message; `None` if the answer is not
/// JSON, and an inner `None` if it has no ID.
pub open spec fn answered_id(body: Seq<char>) -> Option<Option<Seq<char>>> {
    match json_parse(body) {
        Some(v) => Some(v.member_text("id"@)),
        None => None,
    }
}

/// The ID in an answer that was read.
pub fn id_in_answer(answer: Option<Value>) -> (r: Result<String, SendError>)
    ensures
        match r {
            Ok(id) => answer is Some && json_view(answer->0).member_text("id"@) == Some(id@),
            Err(e) => {
                &&& e.mark == Some(Retryable::Unsafe)
                &&& answer matches Some(v) ==> json_view(v).member_text("id"@) is None
                &&& e.message@ == (if answer is Some {
                    "Webhook 応答に message id がありません"@
                } else {
                    "Webhook 応答の解析に失敗"@
                })
            },
        },
{
    match answer {
        Some(value) => match get_text(&value, "id") {
            Some(id) => Ok(id.to_owned()),
            None => Err(
                SendError {
                    message: "Webhook 応答に message id がありません".to_owned(),
                    mark: Some(Retryable::Unsafe),
                },
            ),
        },
        None => Err(
            SendError {
                message: "Webhook 応答の解析に失敗".to_owned(),
                mark: Some(Retryable::Unsafe),
            },
        ),
    }
}

/// The ID of the message that a request has created, out of the answer. The message exists
/// by now, so that a failure to find its ID must not be followed by another request.
pub fn posted_message_id(body: &str) -> (r: Result<String, SendError>)
    ensures
        match r {
            Ok(id) => answered_id(body@) == Some(Some(id@)),
            Err(e) => {
                &&& e.mark == Some(Retryable::Unsafe)
                &&& match answered_id(body@) {
                    Some(id) => id is None && e.message@
                        == "Webhook 応答に message id がありません"@,
                    None => e.message@ == "Webhook 応答の解析に失敗"@,
                }
            },
        },
{
    id_in_answer(parse_value(body))
}

/// What an edit says about attachments: the new map takes the place of the old one, or
/// nothing does.
pub open spec fn attachments(with_image: bool) -> JsonView {
    JsonView::List(
        if with_image {
            seq![
                JsonView::Object(
                    Map::<Seq<char>, JsonView>::empty().insert(
                        "id"@,
                        JsonView::Integer(0),
                    ).insert("filename"@, JsonView::Text(MAP_FILE_NAME@)),
                ),
            ]
        } else {
            Seq::empty()
        },
    )
}

/// What an edit sends: the payload, and what becomes of the attachments.
pub open spec fn edited(payload: JsonView, with_image: bool) -> JsonView {
    match payload {
        JsonView::Object(m) => JsonView::Object(
            m.insert("attachments"@, attachments(with_image)),
        ),
        other => other,
    }
}

/// Builds what an edit sends.
pub fn edit_payload(payload: &Value, with_image: bool) -> (r: Value)
    ensures
        json_view(r) == edited(json_view(*payload), with_image),
{
    let mut out = copy_value(payload);
    let mut files: Vec<Value> = Vec::new();
    if with_image {
        let mut file = empty_object();
        put(&mut file, "id", number_value(0));
        put(&mut file, "filename", text_value(MAP_FILE_NAME));
        let ghost view = json_view(file);
        files.push(file);
        assert(views(files@) =~= seq![view]);
    } else {
        assert(views(files@) =~= Seq::<JsonView>::empty());
    }
    if is_object(&out) {
        put(&mut out, "attachments", list_value(files));
    }
    out
}

} // verus!
