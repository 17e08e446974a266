//! What a client on the WebSocket is told.

use vstd::prelude::*;

use crate::json::{object1, one_member, Json, JsonView};
use crate::mpv::Status;
use crate::text::lemma_filter_push;

verus! {

/// What a client is told first: everything that is known of mpv.
pub open spec fn greeting_json(status: Map<Seq<char>, JsonView>) -> JsonView {
    object1("status"@, JsonView::Object(status))
}

/// What a client is told first.
pub fn greeting(status: &Status) -> (r: Json)
    ensures
        r@ == greeting_json(status@),
{
    one_member("status", status.to_json())
}

/// What happens while a client is connected.
pub enum ClientEvent {
    /// There is news for the clients.
    Push(Json),
    /// The client was too slow and has missed some news.
    Lagged,
    /// There will be no more news.
    NoMore,
    /// The client said something.
    Received,
    /// The client is gone, or what it said cannot be read.
    Gone,
    /// The last message was sent, or could not be.
    Sent(bool),
}

/// What there is to do for a client.
pub enum ClientAction {
    /// Wait for the next event.
    Wait,
    /// Send a message and report whether that worked.
    Send(Json),
    /// Let the client go.
    Leave,
}

/// What a [`ClientEvent`] stands for.
#[verifier::ext_equal]
pub enum ClientEventView {
    Push(JsonView),
    Lagged,
    NoMore,
    Received,
    Gone,
    Sent(bool),
}

/// What a [`ClientAction`] stands for.
#[verifier::ext_equal]
pub enum ClientActionView {
    Wait,
    Send(JsonView),
    Leave,
}

impl View for ClientEvent {
    type V = ClientEventView;

    open spec fn view(&self) -> ClientEventView {
        match *self {
            ClientEvent::Push(v) => ClientEventView::Push(v@),
            ClientEvent::Lagged => ClientEventView::Lagged,
            ClientEvent::NoMore => ClientEventView::NoMore,
            ClientEvent::Received => ClientEventView::Received,
            ClientEvent::Gone => ClientEventView::Gone,
            ClientEvent::Sent(ok) => ClientEventView::Sent(ok),
        }
    }
}

impl View for ClientAction {
    type V = ClientActionView;

    open spec fn view(&self) -> ClientActionView {
        match *self {
            ClientAction::Wait => ClientActionView::Wait,
            ClientAction::Send(v) => ClientActionView::Send(v@),
            ClientAction::Leave => ClientActionView::Leave,
        }
    }
}

/// What there is to do after an event: news is sent on, and what a client says or has
/// missed is passed over.
pub open spec fn client_action(event: ClientEventView) -> ClientActionView {
    match event {
        ClientEventView::Push(v) => ClientActionView::Send(v),
        ClientEventView::Lagged => ClientActionView::Wait,
        ClientEventView::NoMore => ClientActionView::Leave,
        ClientEventView::Received => ClientActionView::Wait,
        ClientEventView::Gone => ClientActionView::Leave,
        ClientEventView::Sent(ok) => if ok {
            ClientActionView::Wait
        } else {
            ClientActionView::Leave
        },
    }
}

/// What there is to do after an event.
pub fn client_step(event: ClientEvent) -> (r: ClientAction)
    ensures
        r@ == client_action(event@),
{
    match event {
        ClientEvent::Push(v) => ClientAction::Send(v),
        ClientEvent::Lagged => ClientAction::Wait,
        ClientEvent::NoMore => ClientAction::Leave,
        ClientEvent::Received => ClientAction::Wait,
        ClientEvent::Gone => ClientAction::Leave,
        ClientEvent::Sent(ok) => if ok {
            ClientAction::Wait
        } else {
            ClientAction::Leave
        },
    }
}

/// Whether a client stays through the events.
pub open spec fn stays(events: Seq<ClientEventView>) -> bool {
    forall|i: int|
        0 <= i < events.len() ==> client_action(#[trigger] events[i]) != ClientActionView::Leave
}

/// What a client is sent during the events, after the greeting. Nothing follows its leave.
pub open spec fn sent(events: Seq<ClientEventView>) -> Seq<JsonView>
    decreases events.len(),
{
    if events.len() == 0 {
        Seq::empty()
    } else {
        let before = sent(events.drop_last());
        match client_action(events.last()) {
            ClientActionView::Send(v) => if stays(events.drop_last()) {
                before.push(v)
            } else {
                before
            },
            _ => before,
        }
    }
}

/// The news among the events, in order.
pub open spec fn news(events: Seq<ClientEventView>) -> Seq<JsonView>
    decreases events.len(),
{
    if events.len() == 0 {
        Seq::empty()
    } else {
        match events.last() {
            ClientEventView::Push(v) => news(events.drop_last()).push(v),
            _ => news(events.drop_last()),
        }
    }
}

/// A client that stays is sent all the news that reaches it, in order and nothing else.
pub proof fn law_clients_get_the_news(events: Seq<ClientEventView>)
    requires
        stays(events),
    ensures
        sent(events) == news(events),
    decreases events.len(),
{
    if events.len() > 0 {
        assert forall|i: int| 0 <= i < events.drop_last().len() implies client_action(
            #[trigger] events.drop_last()[i],
        ) != ClientActionView::Leave by {
            assert(events.drop_last()[i] == events[i]);
        }
        law_clients_get_the_news(events.drop_last());
    }
}

/// A client that has left is sent nothing more.
pub proof fn law_nothing_follows_the_leave(
    events: Seq<ClientEventView>,
    more: Seq<ClientEventView>,
)
    requires
        !stays(events),
    ensures
        sent(events + more) == sent(events),
    decreases more.len(),
{
    if more.len() == 0 {
        assert(events + more == events);
    } else {
        let shorter = events + more.drop_last();
        assert((events + more).drop_last() == shorter);
        assert((events + more).last() == more.last());
        law_nothing_follows_the_leave(events, more.drop_last());
        let i = choose|i: int|
            0 <= i < events.len() && client_action(#[trigger] events[i])
                == ClientActionView::Leave;
        assert(shorter[i] == events[i]);
        assert(!stays(shorter));
    }
}

/// Every piece of news is sent as it is, whatever it says, and nothing but news is sent. A
/// client leaves exactly if there will be no more news, if it is gone, or if a message could
/// not be sent.
pub proof fn law_news_is_sent_and_only_an_end_ends(v: JsonView, event: ClientEventView)
    ensures
        client_action(ClientEventView::Push(v)) == ClientActionView::Send(v),
        client_action(event) == ClientActionView::Send(v) ==> event == ClientEventView::Push(v),
        client_action(event) == ClientActionView::Leave <==> (event == ClientEventView::NoMore
            || event == ClientEventView::Gone || event == ClientEventView::Sent(false)),
        client_action(event) == ClientActionView::Wait <==> (event == ClientEventView::Lagged
            || event == ClientEventView::Received || event == ClientEventView::Sent(true)),
{
}

/// Through any events among which there is none that ends the connection, a client is sent
/// all the news, in order and as it is, and nothing else.
pub proof fn law_all_news_arrives(events: Seq<ClientEventView>)
    requires
        forall|i: int|
            0 <= i < events.len() ==> #[trigger] events[i] != ClientEventView::NoMore && events[i]
                != ClientEventView::Gone && events[i] != ClientEventView::Sent(false),
    ensures
        stays(events),
        sent(events) == events.filter(|e: ClientEventView| e is Push).map_values(
            |e: ClientEventView| e->Push_0,
        ),
    decreases events.len(),
{
    let is_news = |e: ClientEventView| e is Push;
    let value = |e: ClientEventView| e->Push_0;
    if events.len() == 0 {
        reveal(Seq::filter);
        assert(sent(events) == events.filter(is_news).map_values(value));
    } else {
        let before = events.drop_last();
        let last = events.last();
        assert(last == events[events.len() - 1]);
        assert forall|i: int| 0 <= i < before.len() implies #[trigger] before[i]
            != ClientEventView::NoMore && before[i] != ClientEventView::Gone && before[i]
            != ClientEventView::Sent(false) by {
            assert(before[i] == events[i]);
        }
        law_all_news_arrives(before);
        assert(before.push(last) == events);
        lemma_filter_push(before, last, is_news);
        assert(sent(events) == events.filter(is_news).map_values(value));
    }
}

/// A client is greeted with an object whose only member, `status`, holds every known
/// property with its value.
pub proof fn law_greeting_tells_everything(status: Map<Seq<char>, JsonView>)
    ensures
        greeting_json(status) == JsonView::Object(map!["status"@ => JsonView::Object(status)]),
{
    assert(greeting_json(status)->Object_0 == map!["status"@ => JsonView::Object(status)]);
}

/// Events and actions stand for what they hold.
pub proof fn law_client_events_stand_for_themselves(v: Json, ok: bool)
    ensures
        ClientEvent::Push(v)@ == ClientEventView::Push(v@),
        ClientEvent::Lagged@ == ClientEventView::Lagged,
        ClientEvent::NoMore@ == ClientEventView::NoMore,
        ClientEvent::Received@ == ClientEventView::Received,
        ClientEvent::Gone@ == ClientEventView::Gone,
        ClientEvent::Sent(ok)@ == ClientEventView::Sent(ok),
        ClientAction::Wait@ == ClientActionView::Wait,
        ClientAction::Send(v)@ == ClientActionView::Send(v@),
        ClientAction::Leave@ == ClientActionView::Leave,
{
}

} // verus!
