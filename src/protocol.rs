//! The server's fan-out rule: after each registry change, which sessions
//! are sent which message.

use vstd::prelude::*;
use crate::codec::Verb;
use crate::registry::{without, SessionRegistry};

verus! {

/// A registry change made on behalf of one session.
#[derive(Debug, Clone, Copy, PartialEq, Eq, Structural)]
pub enum ServerEvent {
    /// The session moved.
    Moved,
    /// The session uploaded a sprite and was placed.
    ImagePlaced,
    /// The session left.
    Left,
}

/// One message to send: to whom, under which verb.
#[derive(Debug, Clone, Copy, PartialEq, Eq, Structural)]
pub struct Delivery {
    pub to: u32,
    pub verb: Verb,
}

/// `verb` to each of `ids`, in order.
pub open spec fn to_each(ids: Seq<u32>, verb: Verb) -> Seq<Delivery> {
    ids.map_values(|o: u32| Delivery { to: o, verb })
}

/// The messages an event of `sender` gives rise to, given the registered
/// ids after it: a move sends `position` to the sender, then to every other
/// session; a placed sprite sends the `image` acknowledgement to the sender,
/// then `all_clients` to every session, the sender included; a departure
/// sends `client_left` to every remaining session.
pub open spec fn plan_spec(ids: Seq<u32>, sender: u32, event: ServerEvent) -> Seq<Delivery> {
    match event {
        ServerEvent::Moved => seq![Delivery { to: sender, verb: Verb::Position }] + to_each(
            without(ids, sender),
            Verb::Position,
        ),
        ServerEvent::ImagePlaced => seq![Delivery { to: sender, verb: Verb::Image }] + to_each(
            ids,
            Verb::AllClients,
        ),
        ServerEvent::Left => to_each(ids, Verb::ClientLeft),
    }
}

fn push_each(out: &mut Vec<Delivery>, ids: Vec<u32>, verb: Verb)
    ensures
        final(out)@ == old(out)@ + to_each(ids@, verb),
{
    let mut i: usize = 0;
    while i < ids.len()
        invariant
            i <= ids@.len(),
            out@ == old(out)@ + to_each(ids@.subrange(0, i as int), verb),
        decreases ids@.len() - i,
    {
        out.push(Delivery { to: ids[i], verb });
        i += 1;
        assert(out@ =~= old(out)@ + to_each(ids@.subrange(0, i as int), verb));
    }
    assert(ids@.subrange(0, i as int) =~= ids@);
}

/// The messages to send after `event` of `sender`, read from the registry
/// as it stands after the event, in sending order.
pub fn fan_out(registry: &SessionRegistry, sender: u32, event: ServerEvent) -> (r: Vec<Delivery>)
    ensures
        r@ == plan_spec(registry.ids(), sender, event),
{
    let mut out: Vec<Delivery> = Vec::new();
    match event {
        ServerEvent::Moved => {
            out.push(Delivery { to: sender, verb: Verb::Position });
            assert(out@ =~= seq![Delivery { to: sender, verb: Verb::Position }]);
            push_each(&mut out, registry.other_ids(sender), Verb::Position);
        },
        ServerEvent::ImagePlaced => {
            out.push(Delivery { to: sender, verb: Verb::Image });
            assert(out@ =~= seq![Delivery { to: sender, verb: Verb::Image }]);
            push_each(&mut out, registry.all_ids(), Verb::AllClients);
        },
        ServerEvent::Left => {
            push_each(&mut out, registry.all_ids(), Verb::ClientLeft);
        },
    }
    assert(out@ =~= plan_spec(registry.ids(), sender, event)) by {
        assert(Seq::<Delivery>::empty() + to_each(registry.ids(), Verb::ClientLeft) =~= to_each(
            registry.ids(),
            Verb::ClientLeft,
        ));
    }
    out
}

} // verus!
