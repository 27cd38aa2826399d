//! What a target resolves to, and what a receiver makes of what it is given.

use vstd::prelude::*;

use crate::arrived::{origin, ArrivedView};
use crate::client::MessageView;
use crate::text::{lemma_first_at, lemma_first_at_is, split_first};
use crate::transport::{arrived_after, begins_with, named_by, next_of, NextView, TransportView, WaitedView};

verus! {

/// The front of a target that names its scheme.
proof fn lemma_front()
    ensures
        "activemq"@ + "://"@ == "activemq://"@,
        "activemq://"@.len() == 11,
        "activemq://"@[0] == 'a',
        "activemq://"@.take(9) == "activemq:"@,
        "activemq://"@[9] == '/',
        "activemq://"@[10] == '/',
        "activemq://"@.contains(':'),
        "/"@ == seq!['/'],
{
    reveal_strlit("activemq");
    reveal_strlit("://");
    reveal_strlit("activemq://");
    reveal_strlit("activemq:");
    reveal_strlit("/");
    assert("activemq"@ + "://"@ =~= "activemq://"@);
    assert("activemq://"@.take(9) =~= "activemq:"@);
    assert("activemq://"@[8] == ':');
    assert("/"@ =~= seq!['/']);
}

/// Text with no slash, then a slash and more, splits at that slash.
proof fn lemma_split(server: Seq<char>, rest: Seq<char>)
    requires
        !server.contains('/'),
    ensures
        split_first(server + "/"@ + rest, '/') == Some((server, rest)),
        split_first(server, '/') is None,
{
    lemma_front();
    let whole = server + "/"@ + rest;
    let n = server.len() as int;
    assert forall|i: int| 0 <= i < n implies whole[i] != '/' by {
        assert(whole[i] == server[i]);
        assert(server.contains(server[i]));
    }
    assert(whole[n] == '/');
    lemma_first_at_is(whole, '/', n);
    assert(whole.take(n) =~= server);
    assert(whole.skip(n + 1) =~= rest);
    assert forall|i: int| 0 <= i < n implies server[i] != '/' by {
        assert(server.contains(server[i]));
    }
    lemma_first_at_is(server, '/', n);
}

/// `activemq://server/destination` is that destination on that server,
/// whichever broker the transport speaks to itself.
pub proof fn law_a_named_server_and_destination_are_taken(
    transport: TransportView,
    server: Seq<char>,
    destination: Seq<char>,
)
    requires
        !server.contains('/'),
        destination.len() > 0,
    ensures
        transport.resolved("activemq://"@ + server + "/"@ + destination) == (
            server,
            "/"@ + destination,
        ),
{
    lemma_front();
    lemma_split(server, destination);
    let target = "activemq://"@ + server + "/"@ + destination;
    assert(target.take(11) =~= "activemq://"@);
    assert(target.skip(11) =~= server + "/"@ + destination);
}

/// `activemq://server`, with a slash behind it or none, is the transport's
/// own destination on that server.
pub proof fn law_a_named_server_alone_keeps_the_queue(transport: TransportView, server: Seq<char>)
    requires
        !server.contains('/'),
    ensures
        transport.resolved("activemq://"@ + server) == (server, transport.queue),
        transport.resolved("activemq://"@ + server + "/"@) == (server, transport.queue),
{
    lemma_front();
    let alone = "activemq://"@ + server;
    let slashed = "activemq://"@ + server + "/"@;
    lemma_split(server, Seq::empty());
    assert(alone.take(11) =~= "activemq://"@);
    assert(alone.skip(11) =~= server);
    assert(slashed.take(11) =~= "activemq://"@);
    assert(slashed.skip(11) =~= server + "/"@ + Seq::empty());
}

/// `host:port/destination` is that destination on that server, unless it is
/// `activemq:` and two slashes, which is a scheme.
pub proof fn law_a_host_and_port_name_a_server(
    transport: TransportView,
    server: Seq<char>,
    destination: Seq<char>,
)
    requires
        !server.contains('/'),
        server.contains(':'),
        !(server == "activemq:"@ && destination.len() > 0 && destination[0] == '/'),
    ensures
        transport.resolved(server + "/"@ + destination) == (server, "/"@ + destination),
{
    lemma_front();
    lemma_split(server, destination);
    let target = server + "/"@ + destination;
    let n = server.len() as int;
    if begins_with(target, "activemq://"@) {
        assert(target.take(11)[9] == target[9]);
        assert(target.take(11)[10] == target[10]);
        assert(target[n] == '/');
        if n > 9 {
            assert(target[9] == server[9]);
            assert(server.contains(server[9]));
        } else if n < 9 {
            assert(target.take(11)[n] == "activemq://"@[n]);
            assert("activemq://"@.take(9)[n] == "activemq:"@[n]);
            reveal_strlit("activemq:");
        } else {
            assert(server =~= target.take(11).take(9));
            assert(target[10] == destination[0]);
        }
    }
}

/// A target without a colon is a destination alone, on the transport's own
/// broker.
pub proof fn law_a_destination_alone_stays_here(transport: TransportView, target: Seq<char>)
    requires
        !target.contains(':'),
    ensures
        transport.resolved(target) == (transport.server, target),
{
    lemma_front();
    reveal_strlit("activemq://");
    if begins_with(target, "activemq://"@) {
        assert(target.take(11)[8] == target[8]);
        assert(target.contains(target[8]));
    }
    if let Some((server, _)) = split_first(target, '/') {
        lemma_first_at(target, '/');
        if server.contains(':') {
            let i = choose|i: int| 0 <= i < server.len() && server[i] == ':';
            assert(target[i] == ':');
        }
    }
}

/// A target that begins with a slash is a destination alone, whatever
/// follows.
pub proof fn law_a_path_stays_here(transport: TransportView, target: Seq<char>)
    requires
        target.len() > 0,
        target[0] == '/',
    ensures
        transport.resolved(target) == (transport.server, target),
{
    lemma_front();
    if begins_with(target, "activemq://"@) {
        assert(target.take(11)[0] == target[0]);
    }
    lemma_first_at_is(target, '/', 0);
    assert(target.take(0).len() == 0);
}

/// Where a Stream came from can be sent back to: its origin resolves to the
/// server and the destination it names.
pub proof fn law_an_origin_resolves_to_where_it_names(
    transport: TransportView,
    server: Seq<char>,
    destination: Seq<char>,
)
    requires
        !server.contains('/'),
        destination.len() > 0,
        destination != "/"@,
    ensures
        transport.resolved(origin(server, destination)) == (
            server,
            if destination[0] == '/' {
                destination
            } else {
                "/"@ + destination
            },
        ),
{
    lemma_front();
    if destination[0] == '/' {
        let rest = destination.skip(1);
        assert(destination =~= "/"@ + rest);
        assert(origin(server, destination) =~= "activemq://"@ + server + "/"@ + rest);
        law_a_named_server_and_destination_are_taken(transport, server, rest);
    } else {
        law_a_named_server_and_destination_are_taken(transport, server, destination);
    }
}

/// What has arrived after these messages.
pub open spec fn arrived_after_all(
    arrived: Seq<ArrivedView>,
    messages: Seq<MessageView>,
) -> Seq<ArrivedView>
    decreases messages.len(),
{
    if messages.len() == 0 {
        arrived
    } else {
        arrived_after(
            arrived_after_all(arrived, messages.drop_last()),
            WaitedView::Message(messages.last()),
        )
    }
}

/// A receiver keeps the Stream of every message, each once and in order.
pub proof fn law_every_message_is_kept_in_order(
    arrived: Seq<ArrivedView>,
    messages: Seq<MessageView>,
)
    ensures
        arrived_after_all(arrived, messages) == arrived + messages.map_values(
            |message: MessageView| message.arrived,
        ),
    decreases messages.len(),
{
    if messages.len() > 0 {
        law_every_message_is_kept_in_order(arrived, messages.drop_last());
    }
    assert(arrived_after_all(arrived, messages) =~= arrived + messages.map_values(
        |message: MessageView| message.arrived,
    ));
}

/// A receiver acknowledges a message when it has it, under the message's own
/// id, and acknowledges nothing else.
pub proof fn law_each_message_is_acknowledged_once_kept(
    arrived: Seq<ArrivedView>,
    waited: WaitedView,
)
    ensures
        waited matches WaitedView::Message(message) ==> next_of(waited) == NextView::Ack(
            message.ack,
        ) && arrived_after(arrived, waited).contains(message.arrived),
        !(waited is Message) ==> !(next_of(waited) is Ack) && arrived_after(arrived, waited)
            == arrived,
{
    if let WaitedView::Message(message) = waited {
        assert(arrived_after(arrived, waited).last() == message.arrived);
    }
}

/// A quiet broker ends the receiving, and is no failure: whatever had
/// arrived, if anything had, is what is given.
pub proof fn law_a_quiet_queue_is_no_error(arrived: Seq<ArrivedView>)
    ensures
        next_of(WaitedView::Failed { retryable: true }) == NextView::Leave,
        next_of(WaitedView::Closed) == NextView::Stop,
        next_of(WaitedView::Failed { retryable: false }) == NextView::Fail,
        arrived_after(arrived, WaitedView::Failed { retryable: true }) == arrived,
        arrived_after(arrived, WaitedView::Closed) == arrived,
{
}

/// A target whose first part, up to a slash or its end, holds no colon is a
/// destination alone, whatever follows; and so is one without a slash.
pub proof fn law_a_first_part_without_a_colon_stays_here(
    transport: TransportView,
    first: Seq<char>,
    rest: Seq<char>,
)
    requires
        !first.contains('/'),
    ensures
        !first.contains(':') ==> transport.resolved(first + "/"@ + rest) == (
            transport.server,
            first + "/"@ + rest,
        ),
        transport.resolved(first) == (transport.server, first),
{
    lemma_front();
    lemma_split(first, rest);
    reveal_strlit("activemq://");
    let target = first + "/"@ + rest;
    if begins_with(first, "activemq://"@) {
        assert(first.take(11)[9] == first[9]);
        assert(first.contains(first[9]));
    }
    if !first.contains(':') && begins_with(target, "activemq://"@) {
        let n = first.len() as int;
        assert(target.take(11)[8] == target[8]);
        assert(target[n] == '/');
        if n > 8 {
            assert(target[8] == first[8]);
            assert(first.contains(first[8]));
        } else {
            assert(target.take(11)[n] == "activemq://"@[n]);
        }
    }
}

/// A target that someone else has read as a server and a destination is
/// that destination on that server, or the transport's own destination there
/// where it is empty, whatever the target itself is.
pub proof fn law_a_target_read_elsewhere_is_taken(
    transport: TransportView,
    server: Seq<char>,
    destination: Seq<char>,
    target: Seq<char>,
)
    ensures
        transport.resolved_by(Some((server, destination)), target) == (
            server,
            if destination.len() > 0 {
                "/"@ + destination
            } else {
                transport.queue
            },
        ),
        !begins_with(target, "activemq://"@) ==> transport.resolved_by(None, target)
            == transport.resolved(target),
{
    lemma_front();
}

/// A text begins with another where more stands behind that, and only there.
pub proof fn law_a_text_begins_with_its_front(s: Seq<char>, front: Seq<char>, rest: Seq<char>)
    ensures
        begins_with(front + rest, front),
        begins_with(s, front) ==> s == front + s.skip(front.len() as int),
{
    assert((front + rest).take(front.len() as int) =~= front);
    if begins_with(s, front) {
        assert(s =~= s.take(front.len() as int) + s.skip(front.len() as int));
    }
}

/// Under any scheme a target names what stands up to the first slash behind
/// the scheme as its server and what stands behind that as its destination,
/// and a target without the scheme names nothing.
pub proof fn law_a_scheme_names_server_and_destination(
    scheme: Seq<char>,
    server: Seq<char>,
    destination: Seq<char>,
    target: Seq<char>,
)
    requires
        !server.contains('/'),
    ensures
        named_by(scheme, scheme + "://"@ + server + "/"@ + destination) == Some(
            (server, destination),
        ),
        named_by(scheme, scheme + "://"@ + server) == Some((server, Seq::<char>::empty())),
        !begins_with(target, scheme + "://"@) ==> named_by(scheme, target) is None,
{
    let front = scheme + "://"@;
    let long = scheme + "://"@ + server + "/"@ + destination;
    let short = scheme + "://"@ + server;
    lemma_split(server, destination);
    assert(long.take(front.len() as int) =~= front);
    assert(long.skip(front.len() as int) =~= server + "/"@ + destination);
    assert(short.take(front.len() as int) =~= front);
    assert(short.skip(front.len() as int) =~= server);
}

} // verus!
