//! The request orchestrator: a request with its default headers, and the
//! course that one exchange with the server takes.
//!
//! The library decides; it does not talk to the network. Whoever owns the
//! connection asks a [`Phase`] for the work it waits for, does the work, and
//! hands the outcome back as an [`Event`].

use vstd::prelude::*;

use super::header::{distinct_keys, has_key, lemma_without_absent, put, Entries, Header};
use super::util::{components, url_host};
use super::{draft_for, Draft, Http, Method};

verus! {

/// The headers that every request starts with, for the authority `host`.
pub open spec fn default_entries(host: Seq<char>) -> Entries {
    seq![
        ("Accept"@, "*/*"@),
        ("Connection"@, "close"@),
        ("Host"@, host),
        ("User-Agent"@, "Quantun/0.1"@),
    ]
}

/// The headers that every request starts with: any content is accepted,
/// the connection is closed after the response, and host and client are
/// named. A caller who wants others sets them on the request's `http`.
pub fn default_headers(host: &str) -> (header: Header)
    ensures
        header@ == default_entries(host@),
        distinct_keys(header@),
{
    let ghost none = Entries::empty();
    let ghost one = seq![("Accept"@, "*/*"@)];
    let ghost two = one.push(("Connection"@, "close"@));
    let ghost three = two.push(("Host"@, host@));
    proof {
        reveal_strlit("Accept");
        reveal_strlit("Connection");
        reveal_strlit("Host");
        reveal_strlit("User-Agent");
        assert("Accept"@[0] == 'A' && "Connection"@[0] == 'C');
        assert("Host"@[0] == 'H' && "User-Agent"@[0] == 'U');
        assert(!has_key(none, "Accept"@));
        assert(!has_key(one, "Connection"@));
        assert(!has_key(two, "Host"@));
        assert(!has_key(three, "User-Agent"@));
        lemma_without_absent(none, "Accept"@);
        lemma_without_absent(one, "Connection"@);
        lemma_without_absent(two, "Host"@);
        lemma_without_absent(three, "User-Agent"@);
        assert(put(none, "Accept"@, "*/*"@) =~= one);
        assert(three.push(("User-Agent"@, "Quantun/0.1"@)) =~= default_entries(host@));
    }
    Header::new().add("Accept", "*/*").add("Connection", "close").add("Host", host).add(
        "User-Agent",
        "Quantun/0.1",
    )
}

/// A request that is ready to be sent.
pub struct Request {
    pub http: Http,
}

impl Request {
    /// A request for `url` with the method `method` and the default
    /// headers.
    pub fn new(url: &str, method: Method) -> (request: Self)
        ensures
            request.http@ == (Draft {
                method: Some(method),
                headers: Some(default_entries(url_host(url@))),
                ..draft_for(url@)
            }),
    {
        let (host, _) = components(url);
        Request { http: Http::new(url).method(method).headers(default_headers(host)) }
    }
}

/// A `GET` request for `url` with the default headers.
pub fn get(url: &str) -> (request: Request)
    ensures
        request.http@ == (Draft {
            method: Some(Method::Get),
            headers: Some(default_entries(url_host(url@))),
            ..draft_for(url@)
        }),
{
    Request::new(url, Method::Get)
}

/// Where one exchange with the server stands.
#[derive(Clone, Copy, Debug, PartialEq, Eq)]
pub enum Phase {
    /// The request is built; nothing was done yet.
    Built,
    /// A connection to the host is being opened.
    Connecting,
    /// The secure channel is being set up on the connection.
    Handshaking,
    /// The serialized request is being written.
    Sending,
    /// The response is being read until the server closes the connection.
    Receiving,
    /// The response was read in full and handed to the parser.
    Parsed,
    /// The exchange was given up.
    Failed,
}

/// What has happened in an exchange.
#[derive(Clone, Copy, Debug, PartialEq, Eq)]
pub enum Event {
    /// The caller asked for the request to be sent.
    Started,
    /// The connection is open.
    Connected,
    /// The secure channel is set up.
    Secured,
    /// The whole request was written.
    Written,
    /// The whole response was read.
    Received,
    /// Connecting, securing, writing or reading failed.
    IoError,
}

/// The work that a phase waits for.
#[derive(Clone, Copy, Debug, PartialEq, Eq)]
pub enum Task {
    /// Begin the exchange.
    Start,
    /// Open a connection to the host.
    Connect,
    /// Set up the secure channel for the host's name.
    Handshake,
    /// Write the serialized request.
    Write,
    /// Read until the server closes the connection.
    Read,
    /// Hand the response to the caller.
    Deliver,
    /// Hand the error to the caller.
    GiveUp,
}

/// How far a phase is along the course of an exchange.
pub open spec fn rank(phase: Phase) -> nat {
    match phase {
        Phase::Built => 0,
        Phase::Connecting => 1,
        Phase::Handshaking => 2,
        Phase::Sending => 3,
        Phase::Receiving => 4,
        Phase::Parsed => 5,
        Phase::Failed => 5,
    }
}

/// The exchange is over.
pub open spec fn terminal(phase: Phase) -> bool {
    phase == Phase::Parsed || phase == Phase::Failed
}

/// The event that completes a phase, and the phase that follows it.
pub open spec fn completion(phase: Phase) -> Option<(Event, Phase)> {
    match phase {
        Phase::Built => Some((Event::Started, Phase::Connecting)),
        Phase::Connecting => Some((Event::Connected, Phase::Handshaking)),
        Phase::Handshaking => Some((Event::Secured, Phase::Sending)),
        Phase::Sending => Some((Event::Written, Phase::Receiving)),
        Phase::Receiving => Some((Event::Received, Phase::Parsed)),
        Phase::Parsed => None,
        Phase::Failed => None,
    }
}

/// The phase after `event` in `phase`. The event that completes the phase
/// leads to the next one; any other, an I/O error first of all, ends the
/// exchange as failed. A phase in which the exchange is over stays.
pub open spec fn next_phase(phase: Phase, event: Event) -> Phase {
    match completion(phase) {
        None => phase,
        Some((awaited, next)) => if event == awaited {
            next
        } else {
            Phase::Failed
        },
    }
}

/// The work that a phase waits for.
pub open spec fn task_of(phase: Phase) -> Task {
    match phase {
        Phase::Built => Task::Start,
        Phase::Connecting => Task::Connect,
        Phase::Handshaking => Task::Handshake,
        Phase::Sending => Task::Write,
        Phase::Receiving => Task::Read,
        Phase::Parsed => Task::Deliver,
        Phase::Failed => Task::GiveUp,
    }
}

/// The phase that a course of events leads to from `phase`.
pub open spec fn course(phase: Phase, events: Seq<Event>) -> Phase
    decreases events.len(),
{
    if events.len() == 0 {
        phase
    } else {
        next_phase(course(phase, events.drop_last()), events.last())
    }
}

/// The events of an exchange that succeeds.
pub open spec fn happy_path() -> Seq<Event> {
    seq![Event::Started, Event::Connected, Event::Secured, Event::Written, Event::Received]
}

impl Phase {
    /// The phase in which every exchange begins.
    pub fn start() -> (phase: Phase)
        ensures
            phase == Phase::Built,
    {
        Phase::Built
    }

    /// Whether the exchange is over.
    pub fn is_terminal(self) -> (over: bool)
        ensures
            over == terminal(self),
    {
        match self {
            Phase::Parsed => true,
            Phase::Failed => true,
            _ => false,
        }
    }

    /// The work that this phase waits for.
    pub fn task(self) -> (task: Task)
        ensures
            task == task_of(self),
    {
        match self {
            Phase::Built => Task::Start,
            Phase::Connecting => Task::Connect,
            Phase::Handshaking => Task::Handshake,
            Phase::Sending => Task::Write,
            Phase::Receiving => Task::Read,
            Phase::Parsed => Task::Deliver,
            Phase::Failed => Task::GiveUp,
        }
    }

    /// The phase after `event`.
    pub fn step(self, event: Event) -> (next: Phase)
        ensures
            next == next_phase(self, event),
    {
        match (self, event) {
            (Phase::Parsed, _) => Phase::Parsed,
            (Phase::Failed, _) => Phase::Failed,
            (Phase::Built, Event::Started) => Phase::Connecting,
            (Phase::Connecting, Event::Connected) => Phase::Handshaking,
            (Phase::Handshaking, Event::Secured) => Phase::Sending,
            (Phase::Sending, Event::Written) => Phase::Receiving,
            (Phase::Receiving, Event::Received) => Phase::Parsed,
            _ => Phase::Failed,
        }
    }
}

/// No phase is tried again: while the exchange is not over, every event
/// leads further along its course.
pub proof fn lemma_no_way_back(phase: Phase, event: Event)
    ensures
        !terminal(phase) ==> rank(next_phase(phase, event)) > rank(phase),
        terminal(phase) ==> next_phase(phase, event) == phase,
{
}

/// An I/O error ends an exchange that is not over as failed.
pub proof fn lemma_io_error_fails(phase: Phase)
    ensures
        !terminal(phase) ==> next_phase(phase, Event::IoError) == Phase::Failed,
{
}

/// The course of an exchange from `phase` on, step by step from the front.
proof fn lemma_course_front(phase: Phase, events: Seq<Event>)
    requires
        events.len() > 0,
    ensures
        course(phase, events) == course(next_phase(phase, events[0]), events.drop_first()),
    decreases events.len(),
{
    if events.len() == 1 {
        assert(events.drop_last() =~= Seq::<Event>::empty());
        assert(events.drop_first() =~= Seq::<Event>::empty());
    } else {
        lemma_course_front(phase, events.drop_last());
        assert(events.drop_last().drop_first() =~= events.drop_first().drop_last());
        assert(events.drop_last()[0] == events[0]);
    }
}

/// Once an exchange has failed, it stays failed.
proof fn lemma_failed_stays(events: Seq<Event>)
    ensures
        course(Phase::Failed, events) == Phase::Failed,
    decreases events.len(),
{
    if events.len() > 0 {
        lemma_failed_stays(events.drop_last());
    }
}

/// A course that ends in `Parsed` begins with what is left of the whole
/// course from its first phase on.
proof fn lemma_rest_of_happy_path(phase: Phase, events: Seq<Event>)
    requires
        course(phase, events) == Phase::Parsed,
    ensures
        events.len() >= 5 - rank(phase),
        forall|k: int| 0 <= k < 5 - rank(phase) ==> events[k] == happy_path()[rank(phase) + k],
    decreases 5 - rank(phase),
{
    if phase == Phase::Failed {
        lemma_failed_stays(events);
    } else if phase != Phase::Parsed {
        if events.len() > 0 {
            lemma_course_front(phase, events);
            let after = next_phase(phase, events[0]);
            let rest = events.drop_first();
            if after == Phase::Failed {
                lemma_failed_stays(rest);
            } else {
                lemma_rest_of_happy_path(after, rest);
                assert forall|k: int| 0 <= k < 5 - rank(phase) implies events[k] == happy_path()[rank(
                    phase,
                ) + k] by {
                    if k > 0 {
                        assert(events[k] == rest[k - 1]);
                    }
                }
            }
        }
    }
}

/// Only the whole course leads to a parsed response: an exchange that
/// ends in `Parsed` has seen the start, the connection, the secure
/// channel, the written request and the read response, in this order and
/// before anything else.
pub proof fn lemma_parsed_only_by_happy_path(events: Seq<Event>)
    requires
        course(Phase::Built, events) == Phase::Parsed,
    ensures
        events.len() >= 5,
        events.take(5) == happy_path(),
{
    lemma_rest_of_happy_path(Phase::Built, events);
    assert(events.take(5) =~= happy_path());
}

/// The whole course leads to a parsed response.
pub proof fn lemma_happy_path_parses()
    ensures
        course(Phase::Built, happy_path()) == Phase::Parsed,
{
    let e = happy_path();
    assert(e.drop_last() =~= seq![Event::Started, Event::Connected, Event::Secured, Event::Written]);
    let e4 = e.drop_last();
    assert(e4.drop_last() =~= seq![Event::Started, Event::Connected, Event::Secured]);
    let e3 = e4.drop_last();
    assert(e3.drop_last() =~= seq![Event::Started, Event::Connected]);
    let e2 = e3.drop_last();
    assert(e2.drop_last() =~= seq![Event::Started]);
    let e1 = e2.drop_last();
    assert(e1.drop_last() =~= Seq::<Event>::empty());
    assert(course(Phase::Built, e1.drop_last()) == Phase::Built);
    assert(course(Phase::Built, e1) == Phase::Connecting);
    assert(course(Phase::Built, e2) == Phase::Handshaking);
    assert(course(Phase::Built, e3) == Phase::Sending);
    assert(course(Phase::Built, e4) == Phase::Receiving);
}

} // verus!
