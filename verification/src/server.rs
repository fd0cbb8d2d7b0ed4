//! The relay's per-connection protocol: how a connection resolves to a
//! channel, what the new member and the room are told, how inbound frames are
//! dispatched, and what happens when the connection ends. The socket itself
//! lives outside; these functions turn what arrived into the exact deliveries
//! owed.
use crate::channel::{ChannelManager, Delivery};
use crate::code_generator::{spec_code_text, Code, CodeError, CodeView};
use crate::codec::{decode_incoming, spec_decode_incoming, spec_encode_outgoing};
use crate::protocol::{IncomingMessage, IncomingView, OutgoingMessage, OutgoingView, QuasarError};
use vstd::prelude::*;

verus! {

/// Whether the text `s` parses to a code that has no exact match among the
/// outstanding entries (a malformed text counts as absent).
pub open spec fn spec_parse_code_absent(s: Seq<char>, outstanding: Seq<(CodeView, u128)>) -> bool {
    match crate::code_generator::spec_parse_code(s) {
        Some(cv) => forall|e: (CodeView, u128)| outstanding.contains(e) ==> e.0 != cv,
        None => true,
    }
}

/// How an arriving connection asks to be bound to a channel.
pub enum ConnectTarget {
    /// Create a fresh channel and join it.
    NewChannel,
    /// Join the channel with this identifier.
    ById(u128),
    /// Join the channel a pairing code was issued for, presenting the code's
    /// text.
    ByCode(String),
}

/// One client connection, from the moment it is bound to a channel until it
/// closes.
pub struct Connection {
    channel: u128,
    client_id: u64,
    closed: bool,
}

impl Connection {
    pub closed spec fn spec_channel_id(&self) -> u128 {
        self.channel
    }

    pub closed spec fn spec_client_id(&self) -> u64 {
        self.client_id
    }

    /// Active until closed; a closed connection is terminal.
    pub closed spec fn spec_is_active(&self) -> bool {
        !self.closed
    }

    /// The channel this connection is bound to.
    pub fn channel_id(&self) -> (r: u128)
        ensures
            r == self.spec_channel_id(),
    {
        self.channel
    }

    /// The member id this connection holds on its channel.
    pub fn client_id(&self) -> (r: u64)
        ensures
            r == self.spec_client_id(),
    {
        self.client_id
    }

    pub fn is_active(&self) -> (r: bool)
        ensures
            r == self.spec_is_active(),
    {
        !self.closed
    }
}

/// Resolves a connection target to a channel, as the relay's entry points do:
/// a fresh channel, a direct identifier, or a pairing code handed to
/// `validate_code`. A failed resolution registers nothing; a presented code
/// is consumed whether or not it matches.
pub fn resolve_target(manager: &mut ChannelManager, target: &ConnectTarget) -> (r: Result<
    u128,
    QuasarError,
>)
    requires
        old(manager).inv(),
    ensures
        final(manager).inv(),
        match r {
            Ok(u) => final(manager).spec_has_channel(u) && (match target {
                ConnectTarget::NewChannel => {
                    &&& final(manager).spec_channel(u).spec_members() == Seq::<u64>::empty()
                    &&& final(manager).spec_channel(u).spec_next_id() == 0
                    &&& forall|v: u128|
                        v != u ==> final(manager).spec_has_channel(v) == old(manager).spec_has_channel(v)
                    &&& forall|v: u128|
                        v != u && old(manager).spec_has_channel(v) ==> final(manager).spec_channel(v) == old(manager).spec_channel(v)
                    &&& final(manager).spec_outstanding() == old(manager).spec_outstanding()
                    &&& final(manager).spec_available_slots() == old(manager).spec_available_slots()
                },
                ConnectTarget::ById(c) => u == c && old(manager).spec_has_channel(*c) && final(manager).spec_channels() == old(manager).spec_channels() && final(manager).spec_outstanding() == old(manager).spec_outstanding() && final(manager).spec_available_slots() == old(manager).spec_available_slots(),
                ConnectTarget::ByCode(s) => final(manager).spec_channels() == old(manager).spec_channels() && (exists|cv: CodeView|
                    crate::code_generator::spec_parse_code(s@) == Some(cv) && old(manager).spec_outstanding().contains((cv, u)) && !final(manager).spec_outstanding_number(cv.channel_number) && final(manager).spec_slot_available(cv.channel_number)),
            }),
            Err(QuasarError::ChannelNotFound) => final(manager).spec_channels() == old(manager).spec_channels() && final(manager).spec_outstanding() == old(manager).spec_outstanding() && final(manager).spec_available_slots() == old(manager).spec_available_slots() && (match target {
                ConnectTarget::ById(c) => !old(manager).spec_has_channel(*c),
                _ => false,
            }),
            Err(QuasarError::InvalidConnectionCode) => final(manager).spec_channels() == old(manager).spec_channels() && (match target {
                ConnectTarget::ByCode(s) => spec_parse_code_absent(s@, old(manager).spec_outstanding()) && (match crate::code_generator::spec_parse_code(s@) {
                    Some(cv) => !final(manager).spec_outstanding_number(cv.channel_number),
                    None => final(manager).spec_outstanding() == old(manager).spec_outstanding(),
                }),
                _ => false,
            }),
        },
{
    match target {
        ConnectTarget::NewChannel => {
            let u = manager.create_channel();
            Ok(u)
        },
        ConnectTarget::ById(c) => {
            if manager.has_channel(*c) {
                Ok(*c)
            } else {
                Err(QuasarError::ChannelNotFound)
            }
        },
        ConnectTarget::ByCode(s) => {
            match Code::parse(s.as_str()) {
                Err(_) => Err(QuasarError::InvalidConnectionCode),
                Ok(code) => {
                    match manager.validate_code(code) {
                        Some(u) => Ok(u),
                        None => Err(QuasarError::InvalidConnectionCode),
                    }
                },
            }
        },
    }
}

/// What the welcome owed to a fresh member looks like: first the connection
/// information unicast to the member itself, then one membership event to
/// every member, the newcomer included.
pub open spec fn spec_welcome(
    deliveries: Seq<Delivery>,
    id: u64,
    channel: u128,
    members: Seq<u64>,
) -> bool {
    &&& deliveries.len() == 1 + members.len()
    &&& deliveries[0].client_id == id
    &&& deliveries[0].text@ == spec_encode_outgoing(
        OutgoingView::ConnectionInfo {
            id,
            channel_uuid: channel,
            client_ids: members,
            protocol_version: crate::PROTOCOL_VERSION,
        },
    )
    &&& forall|i: int|
        0 <= i < members.len() ==> (#[trigger] deliveries[i + 1]).client_id == members[i]
            && deliveries[i + 1].text@ == spec_encode_outgoing(
            OutgoingView::ClientConnected { id },
        )
}

impl Connection {
    /// Binds a new member to the channel `channel`: assigns the next client
    /// id and plans the welcome — the member's connection information, then
    /// the joining event broadcast to the whole room. Fails, registering
    /// nothing, only when no such channel exists (or its id counter is
    /// spent).
    pub fn open(manager: &mut ChannelManager, channel: u128) -> (r: Result<
        (Connection, Vec<Delivery>),
        QuasarError,
    >)
        requires
            old(manager).inv(),
        ensures
            final(manager).inv(),
            forall|u: u128|
                final(manager).spec_has_channel(u) == old(manager).spec_has_channel(u),
            final(manager).spec_outstanding() == old(manager).spec_outstanding(),
            final(manager).spec_available_slots() == old(manager).spec_available_slots(),
            forall|u: u128|
                u != channel && old(manager).spec_has_channel(u) ==> final(manager).spec_channel(u) == old(manager).spec_channel(u),
            match r {
                Ok((conn, deliveries)) => old(manager).spec_has_channel(channel) && {
                    let pre = old(manager).spec_channel(channel);
                    let post = final(manager).spec_channel(channel);
                    &&& conn.spec_is_active()
                    &&& conn.spec_channel_id() == channel
                    &&& conn.spec_client_id() == pre.spec_next_id() + 1
                    &&& forall|x: u64|
                        pre.spec_issued().contains(x) ==> x < conn.spec_client_id()
                    &&& post.spec_members() == pre.spec_members().push(conn.spec_client_id())
                    &&& spec_welcome(
                        deliveries@,
                        conn.spec_client_id(),
                        channel,
                        post.spec_members(),
                    )
                },
                Err(e) => e == QuasarError::ChannelNotFound && final(manager).spec_channels()
                    == old(manager).spec_channels() && (!old(manager).spec_has_channel(channel)
                    || old(manager).spec_channel(channel).spec_next_id() == u64::MAX),
            },
    {
        match manager.add_client(channel) {
            None => Err(QuasarError::ChannelNotFound),
            Some(id) => {
                let ids = match manager.client_ids(channel) {
                    Some(ids) => ids,
                    None => {
                        proof {
                            assert(false);
                        }
                        return Err(QuasarError::ChannelNotFound);
                    },
                };
                let info = OutgoingMessage::ConnectionInfo {
                    id,
                    channel_uuid: channel,
                    client_ids: ids,
                    protocol_version: crate::PROTOCOL_VERSION,
                };
                let first = match manager.send(channel, id, &info) {
                    Some(d) => d,
                    None => {
                        proof {
                            let ms = manager.spec_channel(channel).spec_members();
                            assert(ms == old(manager).spec_channel(channel).spec_members().push(
                                id,
                            ));
                            assert(ms.last() == id);
                            assert(ms.contains(id));
                            assert(false);
                        }
                        return Err(QuasarError::ChannelNotFound);
                    },
                };
                let mut rest = match manager.broadcast(
                    channel,
                    &OutgoingMessage::ClientConnected { id },
                ) {
                    Some(ds) => ds,
                    None => {
                        proof {
                            assert(false);
                        }
                        return Err(QuasarError::ChannelNotFound);
                    },
                };
                let ghost all = rest@;
                let ghost members = manager.spec_channel(channel).spec_members();
                let mut out: Vec<Delivery> = Vec::new();
                out.push(first);
                while rest.len() > 0
                    invariant
                        out@.len() + rest@.len() == 1 + all.len(),
                        out@.len() >= 1,
                        rest@ == all.subrange(
                            all.len() - rest@.len(),
                            all.len() as int,
                        ),
                        out@[0].client_id == id,
                        out@[0].text@ == spec_encode_outgoing(
                            OutgoingView::ConnectionInfo {
                                id,
                                channel_uuid: channel,
                                client_ids: members,
                                protocol_version: crate::PROTOCOL_VERSION,
                            },
                        ),
                        forall|i: int| 1 <= i < out@.len() ==> out@[i] == all[i - 1],
                    decreases rest@.len(),
                {
                    proof {
                        assert(rest@[0] == all[all.len() - rest@.len()]);
                    }
                    let d = rest.remove(0);
                    out.push(d);
                }
                let conn = Connection { channel, client_id: id, closed: false };
                proof {
                    assert(spec_welcome(out@, id, channel, members)) by {
                        assert forall|i: int|
                            0 <= i < members.len() implies (#[trigger] out@[i + 1]).client_id
                            == members[i] && out@[i + 1].text@ == spec_encode_outgoing(
                            OutgoingView::ClientConnected { id },
                        ) by {
                            assert(out@[i + 1] == all[i]);
                        }
                    }
                }
                Ok((conn, out))
            },
        }
    }
}

/// One delivery per member, in membership order, all carrying `text`.
pub open spec fn spec_fanout(ds: Seq<Delivery>, members: Seq<u64>, text: Seq<char>) -> bool {
    &&& ds.len() == members.len()
    &&& forall|i: int|
        0 <= i < ds.len() ==> (#[trigger] ds[i]).client_id == members[i] && ds[i].text@ == text
}

/// Nothing about codes moved: the outstanding entries and the slot pool read
/// as before.
pub open spec fn spec_pool_unchanged(pre: ChannelManager, post: ChannelManager) -> bool {
    &&& post.spec_outstanding() == pre.spec_outstanding()
    &&& post.spec_available_slots() == pre.spec_available_slots()
}

/// What answering a code request does: the fresh code `cv` occupies a slot
/// that was free and held no outstanding code, it is recorded against the
/// requester's channel, and the one delivery owed carries it to the requester
/// alone.
pub open spec fn spec_code_issued(
    pre: ChannelManager,
    post: ChannelManager,
    ds: Seq<Delivery>,
    channel: u128,
    client: u64,
    cv: CodeView,
) -> bool {
    &&& post.spec_outstanding() == pre.spec_outstanding().push((cv, channel))
    &&& !pre.spec_outstanding_number(cv.channel_number)
    &&& pre.spec_slot_available(cv.channel_number)
    &&& !post.spec_slot_available(cv.channel_number)
    &&& ds.len() == 1
    &&& ds[0].client_id == client
    &&& ds[0].text@ == spec_encode_outgoing(
        OutgoingView::GeneratedCode { code: spec_code_text(cv) },
    )
}

impl Connection {
    /// Dispatches one inbound frame, as the receive loop does: a malformed
    /// frame is dropped and the connection carries on; a data command is
    /// relayed to every member, the sender included; a code request is
    /// answered to the requester alone, or refused with the exhaustion error
    /// when no slot is free, the channel otherwise unaffected.
    #[verifier::spinoff_prover]
    #[verifier::rlimit(60)]
    pub fn on_frame(&self, manager: &mut ChannelManager, frame: &str) -> (r: Result<
        Vec<Delivery>,
        CodeError,
    >)
        requires
            old(manager).inv(),
            self.spec_is_active(),
            old(manager).spec_has_channel(self.spec_channel_id()),
            old(manager).spec_channel(self.spec_channel_id()).spec_members().contains(
                self.spec_client_id(),
            ),
        ensures
            final(manager).inv(),
            final(manager).spec_channels() == old(manager).spec_channels(),
            (r is Err) == (spec_decode_incoming(frame@) == Some(IncomingView::GenerateCode)
                && old(manager).spec_available_slots().len() == 0),
            spec_decode_incoming(frame@) is None ==> (r matches Ok(ds) && ds@.len() == 0)
                && spec_pool_unchanged(*old(manager), *final(manager)),
            (match spec_decode_incoming(frame@) {
                Some(IncomingView::Data { content }) => (r matches Ok(ds) && spec_fanout(
                    ds@,
                    old(manager).spec_channel(self.spec_channel_id()).spec_members(),
                    spec_encode_outgoing(OutgoingView::Data { content }),
                )) && spec_pool_unchanged(*old(manager), *final(manager)),
                _ => true,
            }),
            (match spec_decode_incoming(frame@) {
                Some(IncomingView::GenerateCode) => (match r {
                    Ok(ds) => spec_code_issued(
                        *old(manager),
                        *final(manager),
                        ds@,
                        self.spec_channel_id(),
                        self.spec_client_id(),
                        final(manager).spec_outstanding().last().0,
                    ),
                    Err(e) => e == CodeError::ChannelNotAvailable && spec_pool_unchanged(
                        *old(manager),
                        *final(manager),
                    ),
                }),
                _ => true,
            }),
    {
        match decode_incoming(frame) {
            None => Ok(Vec::new()),
            Some(IncomingMessage::GenerateCode) => {
                match manager.generate_code(self.channel) {
                    Err(e) => Err(e),
                    Ok(code) => {
                        let ghost cv = code@;
                        proof {
                            crate::channel::lemma_same_channels(old(manager), manager);
                        }
                        let text = code.to_string();
                        let reply = OutgoingMessage::GeneratedCode { code: text };
                        match manager.send(self.channel, self.client_id, &reply) {
                            Some(d) => {
                                let mut ds: Vec<Delivery> = Vec::new();
                                ds.push(d);
                                proof {
                                    assert(spec_code_issued(
                                        *old(manager),
                                        *manager,
                                        ds@,
                                        self.spec_channel_id(),
                                        self.spec_client_id(),
                                        cv,
                                    ));
                                    assert(manager.spec_outstanding().last() == (
                                    cv,
                                    self.spec_channel_id(),
                                    ));
                                }
                                Ok(ds)
                            },
                            None => {
                                proof {
                                    assert(false);
                                }
                                Err(CodeError::ChannelNotAvailable)
                            },
                        }
                    },
                }
            },
            Some(IncomingMessage::Data { content }) => {
                let msg = OutgoingMessage::Data { content };
                match manager.broadcast(self.channel, &msg) {
                    Some(ds) => Ok(ds),
                    None => {
                        proof {
                            assert(false);
                        }
                        Err(CodeError::ChannelNotAvailable)
                    },
                }
            },
        }
    }

    /// Ends the connection, as the relay does when the stream closes or
    /// fails: the member is removed, the whole room is told, and the
    /// connection is closed for good.
    pub fn close(&mut self, manager: &mut ChannelManager) -> (r: Vec<Delivery>)
        requires
            old(manager).inv(),
            old(self).spec_is_active(),
            old(manager).spec_has_channel(old(self).spec_channel_id()),
        ensures
            final(manager).inv(),
            !final(self).spec_is_active(),
            final(self).spec_channel_id() == old(self).spec_channel_id(),
            final(self).spec_client_id() == old(self).spec_client_id(),
            forall|u: u128|
                final(manager).spec_has_channel(u) == old(manager).spec_has_channel(u),
            spec_pool_unchanged(*old(manager), *final(manager)),
            forall|u: u128|
                u != old(self).spec_channel_id() && old(manager).spec_has_channel(u) ==> final(manager).spec_channel(u) == old(manager).spec_channel(u),
            !final(manager).spec_channel(old(self).spec_channel_id()).spec_members().contains(
                old(self).spec_client_id(),
            ),
            forall|x: u64|
                x != old(self).spec_client_id() ==> (final(manager).spec_channel(
                    old(self).spec_channel_id(),
                ).spec_members().contains(x) == old(manager).spec_channel(
                    old(self).spec_channel_id(),
                ).spec_members().contains(x)),
            spec_fanout(
                r@,
                final(manager).spec_channel(old(self).spec_channel_id()).spec_members(),
                spec_encode_outgoing(
                    OutgoingView::ClientDisconnected { id: old(self).spec_client_id() },
                ),
            ),
    {
        manager.remove_client(self.channel, self.client_id);
        let farewell = OutgoingMessage::ClientDisconnected { id: self.client_id };
        let ds = match manager.broadcast(self.channel, &farewell) {
            Some(ds) => ds,
            None => {
                proof {
                    assert(false);
                }
                Vec::new()
            },
        };
        self.closed = true;
        ds
    }
}

} // verus!
