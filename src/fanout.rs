//! Per-subscriber subscription sets, the control frames that change them,
//! and the filters applied to each outgoing message.

use vstd::prelude::*;
use crate::processing::DataSource;
use crate::text::str_eq;

verus! {

/// What one subscriber receives. `continuous_only` and `trigger_only` are
/// exclusive: setting one clears the other, so the later one wins.
#[derive(Debug, Clone, Copy, PartialEq, Eq, Structural)]
pub struct ClientSubscriptions {
    pub data_stream: bool,
    pub trigger_events: bool,
    pub trigger_bursts: bool,
    pub continuous_only: bool,
    pub trigger_only: bool,
}

pub open spec fn no_subscriptions() -> ClientSubscriptions {
    ClientSubscriptions {
        data_stream: false,
        trigger_events: false,
        trigger_bursts: false,
        continuous_only: false,
        trigger_only: false,
    }
}

/// The effect of one channel name of a `subscribe` frame; unknown names do nothing.
pub open spec fn apply_channel(s: ClientSubscriptions, c: Seq<char>) -> ClientSubscriptions {
    if c == "data"@ {
        ClientSubscriptions { data_stream: true, ..s }
    } else if c == "trigger_events"@ {
        ClientSubscriptions { trigger_events: true, ..s }
    } else if c == "trigger_bursts"@ {
        ClientSubscriptions { trigger_bursts: true, ..s }
    } else if c == "continuous_only"@ {
        ClientSubscriptions { data_stream: true, continuous_only: true, trigger_only: false, ..s }
    } else if c == "trigger_only"@ {
        ClientSubscriptions { data_stream: true, trigger_only: true, continuous_only: false, ..s }
    } else if c == "all"@ {
        ClientSubscriptions { data_stream: true, trigger_events: true, trigger_bursts: true, ..s }
    } else {
        s
    }
}

/// The subscriptions after a `subscribe` frame listing `channels`: all
/// cleared, then each name applied in order.
pub open spec fn subscriptions_for(channels: Seq<Seq<char>>) -> ClientSubscriptions
    decreases channels.len(),
{
    if channels.len() == 0 {
        no_subscriptions()
    } else {
        apply_channel(subscriptions_for(channels.drop_last()), channels.last())
    }
}

pub open spec fn strings_view(v: Seq<String>) -> Seq<Seq<char>> {
    v.map_values(|s: String| s@)
}

/// Whether a data message from `source` goes to a subscriber.
pub open spec fn wants_data(s: ClientSubscriptions, source: DataSource) -> bool {
    s.data_stream && match source {
        DataSource::Continuous => !s.trigger_only,
        DataSource::Trigger => !s.continuous_only,
    }
}

/// For each subscriber in order, whether a data message from `source` goes to it.
pub open spec fn recipients_of(clients: Seq<ClientSubscriptions>, source: DataSource) -> Seq<bool> {
    Seq::new(clients.len(), |i: int| wants_data(clients[i], source))
}

/// Reply to a client control frame.
#[derive(Debug, Clone, Copy, PartialEq, Eq, Structural)]
pub enum ClientReply {
    Ignore,
    SubscriptionUpdated,
    Pong,
}

impl Default for ClientSubscriptions {
    /// A new subscriber receives every topic, unfiltered.
    fn default() -> (r: Self)
        ensures
            r == (ClientSubscriptions {
                data_stream: true,
                trigger_events: true,
                trigger_bursts: true,
                continuous_only: false,
                trigger_only: false,
            }),
    {
        ClientSubscriptions {
            data_stream: true,
            trigger_events: true,
            trigger_bursts: true,
            continuous_only: false,
            trigger_only: false,
        }
    }
}

impl ClientSubscriptions {
    /// Applies one channel name.
    pub fn apply(&mut self, channel: &str)
        ensures
            *final(self) == apply_channel(*old(self), channel@),
    {
        if str_eq(channel, "data") {
            self.data_stream = true;
        } else if str_eq(channel, "trigger_events") {
            self.trigger_events = true;
        } else if str_eq(channel, "trigger_bursts") {
            self.trigger_bursts = true;
        } else if str_eq(channel, "continuous_only") {
            self.data_stream = true;
            self.continuous_only = true;
            self.trigger_only = false;
        } else if str_eq(channel, "trigger_only") {
            self.data_stream = true;
            self.trigger_only = true;
            self.continuous_only = false;
        } else if str_eq(channel, "all") {
            self.data_stream = true;
            self.trigger_events = true;
            self.trigger_bursts = true;
        }
    }

    /// The subscriptions that a `subscribe` frame listing `channels` sets.
    pub fn from_channels(channels: &Vec<String>) -> (r: Self)
        ensures
            r == subscriptions_for(strings_view(channels@)),
    {
        let mut s = ClientSubscriptions {
            data_stream: false,
            trigger_events: false,
            trigger_bursts: false,
            continuous_only: false,
            trigger_only: false,
        };
        let ghost names = strings_view(channels@);
        let mut i: usize = 0;
        assert(names.subrange(0, 0) =~= Seq::<Seq<char>>::empty());
        while i < channels.len()
            invariant
                i <= channels@.len(),
                names == strings_view(channels@),
                s == subscriptions_for(names.subrange(0, i as int)),
            decreases channels@.len() - i,
        {
            s.apply(channels[i].as_str());
            assert(names.subrange(0, i + 1).drop_last() =~= names.subrange(0, i as int));
            i = i + 1;
        }
        assert(names.subrange(0, channels@.len() as int) =~= names);
        s
    }

    /// Whether a data message from `source` goes to this subscriber.
    pub fn should_receive_data(&self, source: DataSource) -> (r: bool)
        ensures
            r == wants_data(*self, source),
    {
        self.data_stream && match source {
            DataSource::Continuous => !self.trigger_only,
            DataSource::Trigger => !self.continuous_only,
        }
    }
}

/// Acts on a client control frame of type `msg_type`; `channels` holds the
/// string entries of a `subscribe` frame's channel list, when it has one.
pub fn handle_client_message(subs: &mut ClientSubscriptions, msg_type: &str, channels: Option<&Vec<String>>) -> (r: ClientReply)
    ensures
        msg_type@ == "subscribe"@ && channels is Some ==> r == ClientReply::SubscriptionUpdated
            && *final(subs) == subscriptions_for(strings_view(channels->0@)),
        msg_type@ == "subscribe"@ && channels is None ==> r == ClientReply::Ignore && *final(subs) == *old(subs),
        msg_type@ == "ping"@ ==> r == ClientReply::Pong && *final(subs) == *old(subs),
        msg_type@ != "subscribe"@ && msg_type@ != "ping"@ ==> r == ClientReply::Ignore && *final(subs) == *old(subs),
{
    proof {
        reveal_strlit("subscribe");
        reveal_strlit("ping");
        assert("subscribe"@.len() == 9 && "ping"@.len() == 4);
    }
    if str_eq(msg_type, "subscribe") {
        match channels {
            Some(chs) => {
                *subs = ClientSubscriptions::from_channels(chs);
                ClientReply::SubscriptionUpdated
            },
            None => ClientReply::Ignore,
        }
    } else if str_eq(msg_type, "ping") {
        ClientReply::Pong
    } else {
        ClientReply::Ignore
    }
}

/// For each subscriber, whether a data message from `source` goes to it.
/// Each decision rests on that subscriber's own set alone.
pub fn data_recipients(clients: &Vec<ClientSubscriptions>, source: DataSource) -> (r: Vec<bool>)
    ensures
        r@.len() == clients@.len(),
        forall|i: int| 0 <= i < clients@.len() ==> r@[i] == wants_data(#[trigger] clients@[i], source),
        r@ == recipients_of(clients@, source),
{
    let mut out: Vec<bool> = Vec::new();
    let mut i: usize = 0;
    while i < clients.len()
        invariant
            i <= clients@.len(),
            out@.len() == i,
            forall|j: int| 0 <= j < i ==> out@[j] == wants_data(#[trigger] clients@[j], source),
        decreases clients@.len() - i,
    {
        out.push(clients[i].should_receive_data(source));
        i = i + 1;
    }
    assert(out@ =~= recipients_of(clients@, source));
    out
}

/// For each subscriber, whether a trigger event goes to it.
pub fn trigger_event_recipients(clients: &Vec<ClientSubscriptions>) -> (r: Vec<bool>)
    ensures
        r@.len() == clients@.len(),
        forall|i: int| 0 <= i < clients@.len() ==> r@[i] == (#[trigger] clients@[i]).trigger_events,
{
    let mut out: Vec<bool> = Vec::new();
    let mut i: usize = 0;
    while i < clients.len()
        invariant
            i <= clients@.len(),
            out@.len() == i,
            forall|j: int| 0 <= j < i ==> out@[j] == (#[trigger] clients@[j]).trigger_events,
        decreases clients@.len() - i,
    {
        out.push(clients[i].trigger_events);
        i = i + 1;
    }
    out
}

/// For each subscriber, whether a completed-burst notice goes to it.
pub fn burst_complete_recipients(clients: &Vec<ClientSubscriptions>) -> (r: Vec<bool>)
    ensures
        r@.len() == clients@.len(),
        forall|i: int| 0 <= i < clients@.len() ==> r@[i] == (#[trigger] clients@[i]).trigger_bursts,
{
    let mut out: Vec<bool> = Vec::new();
    let mut i: usize = 0;
    while i < clients.len()
        invariant
            i <= clients@.len(),
            out@.len() == i,
            forall|j: int| 0 <= j < i ==> out@[j] == (#[trigger] clients@[j]).trigger_bursts,
        decreases clients@.len() - i,
    {
        out.push(clients[i].trigger_bursts);
        i = i + 1;
    }
    out
}

/// A subscriber that asked for continuous data only never receives a
/// trigger-sourced data message.
pub proof fn lemma_continuous_only_filters_trigger(s: ClientSubscriptions)
    requires
        s.continuous_only,
    ensures
        !wants_data(s, DataSource::Trigger),
{
}

/// Whatever channel list a subscriber sends, it never ends up with both
/// exclusive filters set.
pub proof fn lemma_filters_exclusive(channels: Seq<Seq<char>>)
    ensures
        !(subscriptions_for(channels).continuous_only && subscriptions_for(channels).trigger_only),
    decreases channels.len(),
{
    if channels.len() > 0 {
        lemma_filters_exclusive(channels.drop_last());
    }
}

/// Whether one subscriber gets a data message rests on its own subscription
/// set alone: whatever the other subscribers hold, or however many there
/// are, its delivery decision is the same.
pub proof fn lemma_delivery_isolated(
    a: Seq<ClientSubscriptions>,
    b: Seq<ClientSubscriptions>,
    i: int,
    j: int,
    source: DataSource,
)
    requires
        0 <= i < a.len(),
        0 <= j < b.len(),
        a[i] == b[j],
    ensures
        recipients_of(a, source)[i] == recipients_of(b, source)[j],
{
}

} // verus!
