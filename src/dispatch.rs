use artnet_protocol::ArtCommand;
use std::collections::HashMap;
use vstd::prelude::*;

use crate::config::{port_address_key, Configuration, KinetDestination, KinetSocketAddr};
use crate::kinet::{encode, output_frame};

verus! {

broadcast use vstd::std_specs::hash::group_hash_axioms;

/// An inbound Art-Net command, as far as the bridge acts on it.
#[derive(Debug, Clone, PartialEq, Eq)]
pub enum InboundCommand {
    /// A controller asks which nodes are present.
    Poll,
    /// Another node answers a poll.
    PollReply,
    /// DMX data for the universe at a 15-bit port-address.
    Output { port_address: u16, data: Vec<u8> },
    /// Anything else.
    Other,
}

/// What the bridge does with one inbound datagram.
#[derive(Debug, Clone, PartialEq, Eq)]
pub enum Action {
    /// Answer the sender with this node's poll reply.
    ReplyToPoll,
    /// Send an encoded KiNET frame to a destination's output port.
    Send { to: KinetSocketAddr, port: u8, frame: Vec<u8> },
    /// Output for a universe that has no destination: dropped.
    NoDestination { port_address: u16 },
    /// A poll reply from another node: ignored.
    IgnoreReply,
    /// A command the bridge does not handle: ignored.
    Unhandled,
    /// The datagram is not a well-formed Art-Net command: dropped.
    Malformed { error: String },
}

/// The command that the Art-Net decoder reads from a datagram, if any.
pub uninterp spec fn artnet_decoding(datagram: Seq<u8>) -> Option<InboundCommand>;

/// Relies on `artnet_protocol::ArtCommand::from_buffer`: it reads a command
/// from the datagram's bytes alone, and an output command's port-address is
/// a 15-bit value (it rejects larger ones).
#[verifier::external_body]
fn decode_artnet(datagram: &[u8]) -> (r: Result<InboundCommand, String>)
    ensures
        r is Ok <==> artnet_decoding(datagram@) is Some,
        r matches Ok(c) ==> artnet_decoding(datagram@) == Some(c),
        r matches Ok(InboundCommand::Output { port_address, .. }) ==> port_address < 0x8000,
{
    match ArtCommand::from_buffer(datagram) {
        Ok(ArtCommand::Poll(_)) => Ok(InboundCommand::Poll),
        Ok(ArtCommand::PollReply(_)) => Ok(InboundCommand::PollReply),
        Ok(ArtCommand::Output(output)) => Ok(
            InboundCommand::Output {
                port_address: u16::from(output.port_address),
                data: output.data.as_ref().clone(),
            },
        ),
        Ok(_) => Ok(InboundCommand::Other),
        Err(e) => Err(format!("{:?}", e)),
    }
}

/// `action` is what the bridge does with `command`, given its destinations.
pub open spec fn dispatched(
    table: Map<u16, KinetDestination>,
    command: InboundCommand,
    action: Action,
) -> bool {
    match command {
        InboundCommand::Poll => action is ReplyToPoll,
        InboundCommand::PollReply => action is IgnoreReply,
        InboundCommand::Other => action is Unhandled,
        InboundCommand::Output { port_address, data } => if table.contains_key(port_address) {
            let d = table[port_address];
            match action {
                Action::Send { to, port, frame } => {
                    &&& to == d.kinet_socket_addr
                    &&& port == d.kinet_port
                    &&& frame@ == output_frame(d.kinet_port, data@)
                },
                _ => false,
            }
        } else {
            action == Action::NoDestination { port_address }
        },
    }
}

/// `action` is what the bridge does with the datagram `datagram`.
pub open spec fn handled(table: Map<u16, KinetDestination>, datagram: Seq<u8>, action: Action) -> bool {
    match artnet_decoding(datagram) {
        None => action is Malformed,
        Some(command) => dispatched(table, command, action),
    }
}

/// Decides what to do with one decoded command: answer a poll, ignore a
/// reply or an unknown command, and send the data of an output command to
/// the destination of its port-address, if there is one.
pub fn dispatch(destinations: &HashMap<u16, KinetDestination>, command: InboundCommand) -> (action: Action)
    ensures
        dispatched(destinations@, command, action),
{
    match command {
        InboundCommand::Poll => Action::ReplyToPoll,
        InboundCommand::PollReply => Action::IgnoreReply,
        InboundCommand::Other => Action::Unhandled,
        InboundCommand::Output { port_address, data } => match destinations.get(&port_address) {
            None => Action::NoDestination { port_address },
            Some(d) => {
                let frame = encode(d.kinet_port, data.as_slice());
                Action::Send { to: d.kinet_socket_addr, port: d.kinet_port, frame }
            },
        },
    }
}

/// Handles one inbound datagram; the configuration is only read, so one
/// datagram never changes how the next is handled.
pub fn handle_datagram(config: &Configuration, datagram: &[u8]) -> (action: Action)
    ensures
        handled(config.kinet_destinations@, datagram@, action),
{
    match decode_artnet(datagram) {
        Ok(command) => dispatch(&config.kinet_destinations, command),
        Err(error) => Action::Malformed { error },
    }
}

/// Output for a universe without a destination sends nothing.
pub proof fn lemma_unregistered_output_sends_nothing(
    table: Map<u16, KinetDestination>,
    port_address: u16,
    data: Vec<u8>,
    action: Action,
)
    requires
        !table.contains_key(port_address),
        dispatched(table, (InboundCommand::Output { port_address, data }), action),
    ensures
        !(action is Send),
        action == (Action::NoDestination { port_address }),
{
}

/// A datagram that does not decode is reported and dropped, and the next
/// datagram is handled exactly as it would be on its own.
pub proof fn lemma_malformed_datagram_isolated(
    table: Map<u16, KinetDestination>,
    bad: Seq<u8>,
    good: Seq<u8>,
    actions: Seq<Action>,
)
    requires
        (artnet_decoding(bad) is None),
        (artnet_decoding(good) is Some),
        actions.len() == 2,
        handled(table, bad, actions[0]),
        handled(table, good, actions[1]),
    ensures
        (actions[0] is Malformed),
        !(actions[0] is Send),
        dispatched(table, artnet_decoding(good)->Some_0, actions[1]),
{
}

/// Looking up an inbound port-address finds the destination registered for
/// its network, subnet and universe: a 15-bit port-address is the routing key
/// of its top 7, middle 4 and low 4 bits.
pub proof fn lemma_port_address_is_key(port_address: u16)
    requires
        port_address < 0x8000,
    ensures
        port_address_key(
            (port_address / 256) as u16,
            ((port_address / 16) % 16) as u8,
            (port_address % 16) as u8,
        ) == port_address,
{
}

} // verus!
