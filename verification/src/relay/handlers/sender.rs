//! What the handlers ask the transport to do, and the replies they share.
use vstd::prelude::*;
use crate::peers::ClientId;
use crate::relay::message::{Packet, PacketView};
use crate::udp::common::TransferChannel;

verus! {

/// The error code of every refusal reported to a client.
pub const ERR_UNAUTHORIZED: i32 = 401;

/// What the relay asks the program around it to do.
pub enum RelayAction {
    /// Send `packet` to `target`.
    Send { target: ClientId, packet: Packet, channel: TransferChannel },
    /// Tear down `target`'s session with the transport.
    Disconnect { target: ClientId },
    /// Ask the remote whitelist whether `app_token` may use the relay, and
    /// report the answer for `client_id`.
    CheckRemoteWhitelist { client_id: ClientId, app_token: String },
}

pub enum RelayActionView {
    Send { target: ClientId, packet: PacketView, channel: TransferChannel },
    Disconnect { target: ClientId },
    CheckRemoteWhitelist { client_id: ClientId, app_token: Seq<char> },
}

impl View for RelayAction {
    type V = RelayActionView;

    open spec fn view(&self) -> RelayActionView {
        match self {
            RelayAction::Send { target, packet, channel } => RelayActionView::Send {
                target: *target,
                packet: packet@,
                channel: *channel,
            },
            RelayAction::Disconnect { target } => RelayActionView::Disconnect { target: *target },
            RelayAction::CheckRemoteWhitelist { client_id, app_token } => {
                RelayActionView::CheckRemoteWhitelist { client_id: *client_id, app_token: app_token@ }
            },
        }
    }
}

pub open spec fn relay_actions_view(s: Seq<RelayAction>) -> Seq<RelayActionView> {
    s.map_values(|a: RelayAction| a@)
}

/// `packet` sent reliably to `target`.
pub open spec fn reliable(target: ClientId, packet: PacketView) -> RelayActionView {
    RelayActionView::Send { target, packet, channel: TransferChannel::Reliable }
}

/// The refusal `message` sent to `target`.
pub open spec fn refusal(target: ClientId, message: Seq<char>) -> RelayActionView {
    reliable(target, PacketView::Error { error_code: ERR_UNAUTHORIZED, error_message: message })
}

/// `target` told to disconnect, then its session torn down.
pub open spec fn expulsion(target: ClientId) -> Seq<RelayActionView> {
    seq![reliable(target, PacketView::ForceDisconnect), RelayActionView::Disconnect { target }]
}

/// Appends `packet`, sent to `target` on `channel`.
pub fn send_packet(outs: &mut Vec<RelayAction>, target: ClientId, packet: Packet, channel: TransferChannel)
    ensures
        relay_actions_view(final(outs)@) == relay_actions_view(old(outs)@).push(
            RelayActionView::Send { target, packet: packet@, channel },
        ),
{
    outs.push(RelayAction::Send { target, packet, channel });
    proof {
        assert(relay_actions_view(outs@) =~= relay_actions_view(old(outs)@).push(
            RelayActionView::Send { target, packet: packet@, channel },
        ));
    }
}

/// Appends the refusal `message` for `target`.
pub fn send_err(outs: &mut Vec<RelayAction>, target: ClientId, message: String)
    ensures
        relay_actions_view(final(outs)@) == relay_actions_view(old(outs)@).push(refusal(target, message@)),
{
    send_packet(
        outs,
        target,
        Packet::Error { error_code: ERR_UNAUTHORIZED, error_message: message },
        TransferChannel::Reliable,
    );
}

/// Appends the expulsion of `target`: it is told to disconnect and its
/// session is torn down.
pub fn force_disconnect(outs: &mut Vec<RelayAction>, target: ClientId)
    ensures
        relay_actions_view(final(outs)@) == relay_actions_view(old(outs)@) + expulsion(target),
{
    send_packet(outs, target, Packet::ForceDisconnect, TransferChannel::Reliable);
    let ghost mid = outs@;
    outs.push(RelayAction::Disconnect { target });
    proof {
        assert(relay_actions_view(outs@) =~= relay_actions_view(mid).push(
            RelayActionView::Disconnect { target },
        ));
        assert(relay_actions_view(outs@) =~= relay_actions_view(old(outs)@) + expulsion(target));
    }
}

} // verus!
