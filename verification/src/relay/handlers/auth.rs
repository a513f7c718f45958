//! Authentication: a client presents an application token and its protocol
//! version. An unknown version is refused; the token is checked against the
//! remote whitelist when one is configured (the answer comes back as an
//! event), and against the local whitelist otherwise; a client let in is
//! authenticated for the application with that token, created if new.
use vstd::prelude::*;
use crate::config::loader::{Config, WhitelistFailurePolicy};
use crate::peers::ClientId;
use crate::relay::apps::{fresh_app, has_token, token_owner, Apps, AppsView};
use crate::relay::clients::{ClientState, Clients};
use crate::relay::handlers::sender::{
    expulsion, force_disconnect, refusal, relay_actions_view, reliable, send_err, send_packet, RelayAction,
    RelayActionView,
};
use crate::relay::message::{Packet, PacketView};
use crate::text::str_eq;
use crate::udp::common::TransferChannel;

verus! {

pub open spec fn strings(v: Seq<String>) -> Seq<Seq<char>> {
    v.map_values(|s: String| s@)
}

/// Whether `version` is among the allowed versions (none is allowed when
/// the list is empty).
pub open spec fn version_allowed(config: Config, version: Seq<char>) -> bool {
    strings(config.allowed_versions@).contains(version)
}

/// Whether the local whitelist lets `app` in (an empty list lets every
/// application in).
pub open spec fn locally_allowed(config: Config, app: Seq<char>) -> bool {
    config.whitelist@.len() == 0 || strings(config.whitelist@).contains(app)
}

/// Whether tokens are checked against a remote whitelist: its endpoint and
/// the token to present to it are both set.
pub open spec fn remote_whitelist_configured(config: Config) -> bool {
    config.remote_whitelist_endpoint@.len() > 0 && config.remote_whitelist_token@.len() > 0
}

/// Whether `app` is let in given the remote whitelist's `answer` (`None`
/// when it could not be consulted, in which case the failure policy
/// decides).
pub open spec fn remote_verdict(config: Config, app: Seq<char>, answer: Option<bool>) -> bool {
    match answer {
        Some(allowed) => allowed,
        None => match config.whitelist_failure_policy {
            WhitelistFailurePolicy::FailClosed => false,
            WhitelistFailurePolicy::FailOpenToLocal => locally_allowed(config, app),
        },
    }
}

pub open spec fn version_refusal(version: Seq<char>) -> Seq<char> {
    "Version "@ + version + " is not allowed."@
}

pub open spec fn token_refusal(token: Seq<char>) -> Seq<char> {
    "App token "@ + token + " is not allowed."@
}

/// `sender` presented `token`, and the whitelist said `allowed`: a refused
/// client is told why and expelled; a known client is authenticated for the
/// application with that token, which is created if there is none.
pub open spec fn admit_ok(
    apps: AppsView,
    clients: Map<ClientId, ClientState>,
    sender: ClientId,
    token: Seq<char>,
    allowed: bool,
    apps2: AppsView,
    clients2: Map<ClientId, ClientState>,
    outs: Seq<RelayActionView>,
) -> bool {
    if !allowed {
        &&& apps2 == apps
        &&& clients2 == clients
        &&& outs == seq![refusal(sender, token_refusal(token))] + expulsion(sender)
    } else if !clients.contains_key(sender) {
        apps2 == apps && clients2 == clients && outs.len() == 0
    } else {
        let id = if has_token(apps.apps, token) {
            token_owner(apps.apps, token)
        } else {
            apps.next_id
        };
        &&& apps2 == if has_token(apps.apps, token) {
            apps
        } else {
            AppsView { apps: apps.apps.insert(id, fresh_app(id, token)), next_id: (id + 1) as u64 }
        }
        &&& clients2 == clients.insert(sender, ClientState::Authenticated { app_id: id })
        &&& outs == seq![reliable(sender, PacketView::ClientAuthenticated)]
    }
}

/// `sender` asks to authenticate with `token` and `version`.
pub open spec fn authenticate_ok(
    apps: AppsView,
    clients: Map<ClientId, ClientState>,
    config: Config,
    sender: ClientId,
    token: Seq<char>,
    version: Seq<char>,
    apps2: AppsView,
    clients2: Map<ClientId, ClientState>,
    outs: Seq<RelayActionView>,
) -> bool {
    if !version_allowed(config, version) {
        &&& apps2 == apps
        &&& clients2 == clients
        &&& outs == seq![refusal(sender, version_refusal(version))] + expulsion(sender)
    } else if remote_whitelist_configured(config) {
        &&& apps2 == apps
        &&& clients2 == clients
        &&& outs == seq![RelayActionView::CheckRemoteWhitelist { client_id: sender, app_token: token }]
    } else {
        admit_ok(apps, clients, sender, token, locally_allowed(config, token), apps2, clients2, outs)
    }
}

fn contains_text(list: &Vec<String>, x: &str) -> (r: bool)
    ensures
        r == strings(list@).contains(x@),
{
    let mut i: usize = 0;
    while i < list.len()
        invariant
            i <= list@.len(),
            forall|j: int| 0 <= j < i ==> (#[trigger] list@[j])@ != x@,
        decreases list.len() - i,
    {
        if str_eq(list[i].as_str(), x) {
            proof {
                assert(strings(list@)[i as int] == x@);
            }
            return true;
        }
        i += 1;
    }
    proof {
        let l = strings(list@);
        assert forall|j: int| 0 <= j < l.len() implies l[j] != x@ by {
            assert(l[j] == list@[j]@);
        }
    }
    false
}

/// Whether `version` is among the allowed versions.
pub fn is_version_allowed(config: &Config, version: &str) -> (r: bool)
    ensures
        r == version_allowed(*config, version@),
{
    contains_text(&config.allowed_versions, version)
}

/// Whether the local whitelist lets `app` in.
pub fn check_local_whitelist(config: &Config, app: &str) -> (r: bool)
    ensures
        r == locally_allowed(*config, app@),
{
    if config.whitelist.len() == 0 {
        true
    } else {
        contains_text(&config.whitelist, app)
    }
}

/// Whether tokens are checked against a remote whitelist.
pub fn uses_remote_whitelist(config: &Config) -> (r: bool)
    ensures
        r == remote_whitelist_configured(*config),
{
    !config.remote_whitelist_endpoint.as_str().is_empty() && !config.remote_whitelist_token.as_str().is_empty()
}

/// Whether `app` is let in given the remote whitelist's answer (`None`
/// when it could not be consulted).
pub fn whitelist_verdict(config: &Config, app: &str, answer: Option<bool>) -> (r: bool)
    ensures
        r == remote_verdict(*config, app@, answer),
{
    match answer {
        Some(allowed) => allowed,
        None => match config.whitelist_failure_policy {
            WhitelistFailurePolicy::FailClosed => false,
            WhitelistFailurePolicy::FailOpenToLocal => check_local_whitelist(config, app),
        },
    }
}

/// Lets `sender` in or not, according to the whitelist's verdict
/// `allowed`.
pub fn admit_client(apps: &mut Apps, clients: &mut Clients, sender: ClientId, token: String, allowed: bool) -> (outs:
    Vec<RelayAction>)
    requires
        old(apps).wf(),
        old(apps)@.next_id < u64::MAX,
    ensures
        final(apps).wf(),
        admit_ok(
            old(apps)@,
            old(clients)@,
            sender,
            token@,
            allowed,
            final(apps)@,
            final(clients)@,
            relay_actions_view(outs@),
        ),
{
    let mut outs: Vec<RelayAction> = Vec::new();
    proof {
        assert(relay_actions_view(outs@) =~= Seq::<RelayActionView>::empty());
    }
    if !allowed {
        let mut msg = String::new();
        msg.append("App token ");
        msg.append(token.as_str());
        msg.append(" is not allowed.");
        proof {
            assert(msg@ =~= token_refusal(token@));
        }
        send_err(&mut outs, sender, msg);
        force_disconnect(&mut outs, sender);
        proof {
            assert(relay_actions_view(outs@) =~= seq![refusal(sender, token_refusal(token@))] + expulsion(
                sender,
            ));
        }
        return outs;
    }
    if clients.get(sender).is_none() {
        return outs;
    }
    let ghost a0 = apps@;
    let app_id = match apps.get_by_token(token.as_str()) {
        Some(app) => {
            proof {
                let k = token_owner(a0.apps, token@);
                assert(a0.apps.contains_key(k) && a0.apps[k].token == token@);
                assert(a0.apps.contains_key(app@.id));
            }
            app.id
        },
        None => apps.create(token),
    };
    clients.set_state(sender, ClientState::Authenticated { app_id });
    send_packet(&mut outs, sender, Packet::ClientAuthenticated, TransferChannel::Reliable);
    proof {
        assert(relay_actions_view(outs@) =~= seq![reliable(sender, PacketView::ClientAuthenticated)]);
    }
    outs
}

/// Handles `sender`'s request to authenticate with `token` and
/// `version`.
pub fn authenticate_client(
    apps: &mut Apps,
    clients: &mut Clients,
    config: &Config,
    sender: ClientId,
    token: String,
    version: String,
) -> (outs: Vec<RelayAction>)
    requires
        old(apps).wf(),
        old(apps)@.next_id < u64::MAX,
    ensures
        final(apps).wf(),
        authenticate_ok(
            old(apps)@,
            old(clients)@,
            *config,
            sender,
            token@,
            version@,
            final(apps)@,
            final(clients)@,
            relay_actions_view(outs@),
        ),
{
    let mut outs: Vec<RelayAction> = Vec::new();
    proof {
        assert(relay_actions_view(outs@) =~= Seq::<RelayActionView>::empty());
    }
    if !is_version_allowed(config, version.as_str()) {
        let mut msg = String::new();
        msg.append("Version ");
        msg.append(version.as_str());
        msg.append(" is not allowed.");
        proof {
            assert(msg@ =~= version_refusal(version@));
        }
        send_err(&mut outs, sender, msg);
        force_disconnect(&mut outs, sender);
        proof {
            assert(relay_actions_view(outs@) =~= seq![refusal(sender, version_refusal(version@))]
                + expulsion(sender));
        }
        return outs;
    }
    if uses_remote_whitelist(config) {
        outs.push(RelayAction::CheckRemoteWhitelist { client_id: sender, app_token: token });
        proof {
            assert(relay_actions_view(outs@) =~= seq![
                RelayActionView::CheckRemoteWhitelist { client_id: sender, app_token: token@ },
            ]);
        }
        return outs;
    }
    let allowed = check_local_whitelist(config, token.as_str());
    admit_client(apps, clients, sender, token, allowed)
}

} // verus!
