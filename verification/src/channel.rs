//! Channels — rooms of connected members — and the process-wide directory
//! that creates them, issues pairing codes against them, and resolves codes
//! back to them.
use crate::code_generator::{no_dups, Code, CodeError, CodeGenerator, CodeView};
use crate::codec::spec_encode_outgoing;
use crate::protocol::OutgoingMessage;
use vstd::prelude::*;

verus! {

/// One message the relay owes one member: the member's id and the rendered
/// text to hand to that member's outbound mailbox.
pub struct Delivery {
    pub client_id: u64,
    pub text: String,
}

/// A room of connected members. Client ids are handed out by a counter that
/// only grows, so an id is never reused, not even after its member leaves.
pub struct Channel {
    uuid: u128,
    members: Vec<u64>,
    next_id: u64,
    issued: Ghost<Set<u64>>,
}

impl Channel {
    /// The channel's stable identifier.
    pub closed spec fn spec_uuid(&self) -> u128 {
        self.uuid
    }

    /// The current membership, in joining order.
    pub closed spec fn spec_members(&self) -> Seq<u64> {
        self.members@
    }

    /// The last client id handed out (zero before the first).
    pub closed spec fn spec_next_id(&self) -> u64 {
        self.next_id
    }

    /// Every id this channel ever handed out.
    pub closed spec fn spec_issued(&self) -> Set<u64> {
        self.issued@
    }

    pub closed spec fn inv(&self) -> bool {
        &&& forall|i: int, j: int|
            0 <= i < j < self.members@.len() ==> self.members@[i] < self.members@[j]
        &&& forall|i: int|
            0 <= i < self.members@.len() ==> self.issued@.contains(#[trigger] self.members@[i])
        &&& forall|id: u64| self.issued@.contains(id) ==> 1 <= id <= self.next_id
    }

    pub fn new(uuid: u128) -> (r: Channel)
        ensures
            r.inv(),
            r.spec_uuid() == uuid,
            r.spec_members() == Seq::<u64>::empty(),
            r.spec_next_id() == 0,
            r.spec_issued() == Set::<u64>::empty(),
    {
        Channel { uuid, members: Vec::new(), next_id: 0, issued: Ghost(Set::empty()) }
    }

    pub fn uuid(&self) -> (r: u128)
        ensures
            r == self.spec_uuid(),
    {
        self.uuid
    }

    /// A snapshot of the current membership.
    pub fn client_ids(&self) -> (r: Vec<u64>)
        ensures
            r@ == self.spec_members(),
    {
        let n = self.members.len();
        let mut out: Vec<u64> = Vec::new();
        let mut k: usize = 0;
        while k < n
            invariant
                k <= n,
                n == self.members@.len(),
                out@ == self.members@.subrange(0, k as int),
            decreases n - k,
        {
            out.push(self.members[k]);
            proof {
                assert(out@ =~= self.members@.subrange(0, k + 1 as int));
            }
            k += 1;
        }
        proof {
            assert(self.members@.subrange(0, n as int) =~= self.members@);
        }
        out
    }

    /// Registers a new member under a fresh id: one greater than the counter,
    /// so strictly greater than every id ever issued here, and in particular
    /// never one that was issued before, even to a member since removed.
    pub fn add_client(&mut self) -> (r: u64)
        requires
            old(self).inv(),
            old(self).spec_next_id() < u64::MAX,
        ensures
            final(self).inv(),
            r == old(self).spec_next_id() + 1,
            final(self).spec_next_id() == r,
            !old(self).spec_issued().contains(r),
            forall|id: u64| old(self).spec_issued().contains(id) ==> id < r,
            final(self).spec_issued() == old(self).spec_issued().insert(r),
            final(self).spec_members() == old(self).spec_members().push(r),
            final(self).spec_uuid() == old(self).spec_uuid(),
    {
        let id = self.next_id + 1;
        self.next_id = id;
        self.members.push(id);
        proof {
            self.issued@ = self.issued@.insert(id);
            assert forall|i: int, j: int|
                0 <= i < j < self.members@.len() implies self.members@[i] < self.members@[j] by {
                if j < self.members@.len() - 1 {
                    assert(old(self).members@[i] < old(self).members@[j]);
                } else {
                    assert(old(self).issued@.contains(old(self).members@[i]));
                }
            }
        }
        id
    }

    /// An id the channel ever issued never comes back: it stays at or below
    /// the counter, while `add_client` always returns one above it.
    pub proof fn lemma_ids_never_reused(&self, id: u64)
        requires
            self.inv(),
            self.spec_issued().contains(id),
        ensures
            1 <= id <= self.spec_next_id(),
    {
    }

    /// The membership never lists an id twice: it is kept strictly
    /// increasing, in joining order.
    pub proof fn lemma_members_distinct(&self)
        requires
            self.inv(),
        ensures
            forall|i: int, j: int|
                0 <= i < j < self.spec_members().len() ==> self.spec_members()[i]
                    < self.spec_members()[j],
            no_dups(self.spec_members()),
    {
    }

    /// Removes a member; unknown ids are ignored. The id stays spent: the
    /// counter and the issued set are untouched.
    pub fn remove_client(&mut self, sender_id: u64)
        requires
            old(self).inv(),
        ensures
            final(self).inv(),
            final(self).spec_uuid() == old(self).spec_uuid(),
            final(self).spec_next_id() == old(self).spec_next_id(),
            final(self).spec_issued() == old(self).spec_issued(),
            !final(self).spec_members().contains(sender_id),
            forall|id: u64|
                id != sender_id ==> (final(self).spec_members().contains(id) == old(self).spec_members().contains(id)),
            !old(self).spec_members().contains(sender_id) ==> final(self).spec_members() == old(self).spec_members(),
    {
        let n = self.members.len();
        let mut k: usize = 0;
        while k < n
            invariant
                k <= n,
                n == self.members@.len(),
                self.members@ == old(self).members@,
                self.next_id == old(self).next_id,
                self.uuid == old(self).uuid,
                self.issued == old(self).issued,
                old(self).inv(),
                forall|i: int| 0 <= i < k as int ==> self.members@[i] != sender_id,
            decreases n - k,
        {
            if self.members[k] == sender_id {
                proof {
                    assert(no_dups(self.members@));
                    crate::code_generator::lemma_seq_remove_membership(
                        self.members@,
                        k as int,
                    );
                }
                self.members.remove(k);
                proof {
                    assert forall|i: int, j: int|
                        0 <= i < j < self.members@.len() implies self.members@[i]
                        < self.members@[j] by {
                        let v = old(self).members@;
                        if j < k as int {
                            assert(v[i] < v[j]);
                        } else if i < k as int {
                            assert(v[i] < v[j + 1]);
                        } else {
                            assert(v[i + 1] < v[j + 1]);
                        }
                    }
                }
                return ;
            }
            k += 1;
        }
        proof {
            assert(!self.members@.contains(sender_id));
        }
    }

    /// Plans one delivery of `message` to every current member, in membership
    /// order: exactly as many deliveries as members, each carrying the same
    /// rendered text, so no member's fate can affect another's entry.
    pub fn broadcast(&self, message: &OutgoingMessage) -> (r: Vec<Delivery>)
        ensures
            r@.len() == self.spec_members().len(),
            forall|i: int|
                0 <= i < r@.len() ==> (#[trigger] r@[i]).client_id == self.spec_members()[i]
                    && r@[i].text@ == spec_encode_outgoing(message@),
    {
        let text = crate::codec::encode_outgoing(message);
        let n = self.members.len();
        let mut out: Vec<Delivery> = Vec::new();
        let mut k: usize = 0;
        while k < n
            invariant
                k <= n,
                n == self.members@.len(),
                out@.len() == k as int,
                text@ == spec_encode_outgoing(message@),
                forall|i: int|
                    0 <= i < k as int ==> (#[trigger] out@[i]).client_id == self.members@[i]
                        && out@[i].text@ == spec_encode_outgoing(message@),
            decreases n - k,
        {
            out.push(Delivery { client_id: self.members[k], text: text.clone() });
            k += 1;
        }
        out
    }

    /// Plans one delivery of `message` to the one member `sender_id`, or none
    /// at all when no such member is present.
    pub fn send(&self, sender_id: u64, message: &OutgoingMessage) -> (r: Option<Delivery>)
        ensures
            match r {
                Some(d) => self.spec_members().contains(sender_id) && d.client_id == sender_id
                    && d.text@ == spec_encode_outgoing(message@),
                None => !self.spec_members().contains(sender_id),
            },
    {
        let n = self.members.len();
        let mut k: usize = 0;
        while k < n
            invariant
                k <= n,
                n == self.members@.len(),
                forall|i: int| 0 <= i < k as int ==> self.members@[i] != sender_id,
            decreases n - k,
        {
            if self.members[k] == sender_id {
                proof {
                    assert(self.members@.contains(sender_id));
                }
                let text = crate::codec::encode_outgoing(message);
                return Some(Delivery { client_id: sender_id, text });
            }
            k += 1;
        }
        proof {
            assert(!self.members@.contains(sender_id));
        }
        None
    }
}

/// Relies on uuid's Uuid::new_v4: a freshly generated random identifier,
/// carried as its 128-bit value.
#[verifier::external_body]
fn random_uuid_value() -> u128 {
    uuid::Uuid::new_v4().as_u128()
}

/// The process-wide directory: every live channel by identifier, the slot
/// pool, and the codes now outstanding, each bound to the channel it was
/// issued for.
pub struct ChannelManager {
    channels: Vec<Channel>,
    code_generator: CodeGenerator,
    outstanding: Vec<(Code, u128)>,
}

impl ChannelManager {
    pub closed spec fn spec_channels(&self) -> Seq<Channel> {
        self.channels@
    }

    pub open spec fn spec_has_channel(&self, uuid: u128) -> bool {
        exists|i: int|
            0 <= i < self.spec_channels().len() && (#[trigger] self.spec_channels()[i]).spec_uuid()
                == uuid
    }

    pub closed spec fn spec_index_of(&self, uuid: u128) -> int {
        choose|i: int|
            0 <= i < self.channels@.len() && (#[trigger] self.channels@[i]).spec_uuid() == uuid
    }

    /// The channel that carries `uuid` (meaningful under `spec_has_channel`).
    pub open spec fn spec_channel(&self, uuid: u128) -> Channel {
        self.spec_channels()[self.spec_index_of(uuid)]
    }

    /// The codes now outstanding, oldest first, each with its channel.
    pub closed spec fn spec_outstanding(&self) -> Seq<(CodeView, u128)> {
        self.outstanding@.map_values(|e: (Code, u128)| (e.0@, e.1))
    }

    /// Whether some outstanding code occupies the slot `n`.
    pub open spec fn spec_outstanding_number(&self, n: u8) -> bool {
        exists|i: int|
            0 <= i < self.spec_outstanding().len() && (#[trigger] self.spec_outstanding()[i]).0
                .channel_number == n
    }

    pub closed spec fn spec_available_slots(&self) -> Seq<u8> {
        self.code_generator.spec_available()
    }

    pub open spec fn spec_slot_available(&self, n: u8) -> bool {
        self.spec_available_slots().contains(n)
    }

    pub closed spec fn inv(&self) -> bool {
        &&& self.code_generator.inv()
        &&& forall|i: int, j: int|
            #![trigger self.channels@[i], self.channels@[j]]
            0 <= i < j < self.channels@.len() ==> self.channels@[i].spec_uuid()
                != self.channels@[j].spec_uuid()
        &&& forall|i: int| 0 <= i < self.channels@.len() ==> (#[trigger] self.channels@[i]).inv()
        &&& forall|i: int, j: int|
            #![trigger self.outstanding@[i], self.outstanding@[j]]
            0 <= i < j < self.outstanding@.len() ==> self.outstanding@[i].0.channel_number
                != self.outstanding@[j].0.channel_number
        &&& forall|i: int|
            0 <= i < self.outstanding@.len() ==> !self.code_generator.spec_is_available(
                (#[trigger] self.outstanding@[i]).0.channel_number,
            )
        &&& forall|i: int|
            0 <= i < self.outstanding@.len() ==> (#[trigger] self.outstanding@[i]).0.channel_number
                < self.code_generator.spec_pool_size()
        &&& forall|i: int|
            0 <= i < self.outstanding@.len() ==> self.spec_has_channel(
                (#[trigger] self.outstanding@[i]).1,
            )
    }

    /// A fresh directory: no channels, no outstanding codes, the whole pool
    /// of one hundred slots available.
    pub fn new() -> (r: ChannelManager)
        ensures
            r.inv(),
            r.spec_channels() == Seq::<Channel>::empty(),
            r.spec_outstanding() == Seq::<(CodeView, u128)>::empty(),
            forall|n: u8| r.spec_slot_available(n) == (n < 100),
    {
        let r = ChannelManager {
            channels: Vec::new(),
            code_generator: CodeGenerator::new(),
            outstanding: Vec::new(),
        };
        proof {
            assert(r.spec_outstanding() =~= Seq::<(CodeView, u128)>::empty());
            assert forall|n: u8| r.spec_slot_available(n) == (n < 100) by {
                assert(r.code_generator.spec_is_available(n) == (n < 100));
            }
        }
        r
    }
}

/// With distinct identifiers, the index that `spec_index_of` picks for the
/// identifier of the channel at `k` is `k` itself.
proof fn lemma_index_of_channels(m: &ChannelManager, k: int)
    requires
        0 <= k < m.spec_channels().len(),
        forall|i: int, j: int|
            #![trigger m.spec_channels()[i], m.spec_channels()[j]]
            0 <= i < j < m.spec_channels().len() ==> m.spec_channels()[i].spec_uuid()
                != m.spec_channels()[j].spec_uuid(),
    ensures
        m.spec_index_of(m.spec_channels()[k].spec_uuid()) == k,
        m.spec_channel(m.spec_channels()[k].spec_uuid()) == m.spec_channels()[k],
        m.spec_has_channel(m.spec_channels()[k].spec_uuid()),
{
    let u = m.spec_channels()[k].spec_uuid();
    assert(m.spec_has_channel(u));
    let i = m.spec_index_of(u);
    if i < k {
        assert(m.spec_channels()[i].spec_uuid() != m.spec_channels()[k].spec_uuid());
    } else if i > k {
        assert(m.spec_channels()[k].spec_uuid() != m.spec_channels()[i].spec_uuid());
    }
}

/// Two directory states that hold the same channel sequence agree on every
/// lookup.
pub proof fn lemma_same_channels(a: &ChannelManager, b: &ChannelManager)
    requires
        a.inv(),
        a.spec_channels() == b.spec_channels(),
    ensures
        forall|u: u128| a.spec_has_channel(u) == b.spec_has_channel(u),
        forall|u: u128| a.spec_has_channel(u) ==> a.spec_channel(u) == b.spec_channel(u),
{
    let n = a.spec_channels().len();
    assert forall|u: u128| a.spec_has_channel(u) == b.spec_has_channel(u) by {
        if a.spec_has_channel(u) {
            let i = choose|i: int|
                0 <= i < n && (#[trigger] a.spec_channels()[i]).spec_uuid() == u;
            assert(b.spec_channels()[i].spec_uuid() == u);
        }
        if b.spec_has_channel(u) {
            let i = choose|i: int|
                0 <= i < n && (#[trigger] b.spec_channels()[i]).spec_uuid() == u;
            assert(a.spec_channels()[i].spec_uuid() == u);
        }
    }
    assert forall|u: u128| a.spec_has_channel(u) implies a.spec_channel(u) == b.spec_channel(
        u,
    ) by {
        let i = a.spec_index_of(u);
        assert(0 <= i < n && a.spec_channels()[i].spec_uuid() == u);
        let j = b.spec_index_of(u);
        assert(b.spec_has_channel(u));
        assert(0 <= j < n && b.spec_channels()[j].spec_uuid() == u);
        assert(a.spec_channels()[j].spec_uuid() == u);
        if i < j {
            assert(a.spec_channels()[i].spec_uuid() != a.spec_channels()[j].spec_uuid());
        } else if j < i {
            assert(a.spec_channels()[j].spec_uuid() != a.spec_channels()[i].spec_uuid());
        }
    }
}

/// After replacing the channel at `k` by one with the same identifier (the
/// rest of the directory untouched), the directory is well formed again and
/// every other channel reads unchanged.
proof fn lemma_update_at(pre: &ChannelManager, post: &ChannelManager, k: int)
    requires
        pre.inv(),
        0 <= k < pre.spec_channels().len(),
        post.spec_channels() == pre.spec_channels().update(k, post.spec_channels()[k]),
        post.spec_channels()[k].spec_uuid() == pre.spec_channels()[k].spec_uuid(),
        post.spec_channels()[k].inv(),
        post.spec_raw_outstanding() == pre.spec_raw_outstanding(),
        post.spec_generator() == pre.spec_generator(),
    ensures
        post.inv(),
        forall|u: u128| post.spec_has_channel(u) == pre.spec_has_channel(u),
        forall|u: u128|
            u != pre.spec_channels()[k].spec_uuid() && pre.spec_has_channel(u)
                ==> post.spec_channel(u) == pre.spec_channel(u),
        post.spec_channel(pre.spec_channels()[k].spec_uuid()) == post.spec_channels()[k],
        post.spec_outstanding() == pre.spec_outstanding(),
        post.spec_available_slots() == pre.spec_available_slots(),
{
    let n = pre.spec_channels().len();
    let uk = pre.spec_channels()[k].spec_uuid();
    assert(post.spec_channels().len() == n);
    assert forall|i: int| 0 <= i < n implies (#[trigger] post.spec_channels()[i]).spec_uuid()
        == pre.spec_channels()[i].spec_uuid() by {
        if i != k {
            assert(post.spec_channels()[i] == pre.spec_channels()[i]);
        }
    }
    assert forall|u: u128| post.spec_has_channel(u) == pre.spec_has_channel(u) by {
        if pre.spec_has_channel(u) {
            let i = choose|i: int|
                0 <= i < n && (#[trigger] pre.spec_channels()[i]).spec_uuid() == u;
            assert(post.spec_channels()[i].spec_uuid() == u);
        }
        if post.spec_has_channel(u) {
            let i = choose|i: int|
                0 <= i < n && (#[trigger] post.spec_channels()[i]).spec_uuid() == u;
            assert(pre.spec_channels()[i].spec_uuid() == u);
        }
    }
    assert forall|i: int| 0 <= i < n implies (#[trigger] post.spec_channels()[i]).inv() by {
        if i != k {
            assert(post.spec_channels()[i] == pre.spec_channels()[i]);
        }
    }
    assert forall|u: u128|
        u != uk && pre.spec_has_channel(u) implies post.spec_channel(u) == pre.spec_channel(
        u,
    ) by {
        let i = pre.spec_index_of(u);
        assert(0 <= i < n && pre.spec_channels()[i].spec_uuid() == u);
        lemma_index_of_channels(pre, i);
        assert(post.spec_channels()[i].spec_uuid() == u);
        lemma_index_of_channels(post, i);
        assert(i != k);
        assert(post.spec_channels()[i] == pre.spec_channels()[i]);
    }
    lemma_index_of_channels(post, k);
    assert(post.spec_outstanding() =~= pre.spec_outstanding());
}

/// After appending a channel whose identifier is new, the directory is well
/// formed again and every old channel reads unchanged.
proof fn lemma_push_channel(pre: &ChannelManager, post: &ChannelManager, c: Channel)
    requires
        pre.inv(),
        c.inv(),
        !pre.spec_has_channel(c.spec_uuid()),
        post.spec_channels() == pre.spec_channels().push(c),
        post.spec_raw_outstanding() == pre.spec_raw_outstanding(),
        post.spec_generator() == pre.spec_generator(),
    ensures
        post.inv(),
        post.spec_has_channel(c.spec_uuid()),
        forall|u: u128|
            u != c.spec_uuid() ==> post.spec_has_channel(u) == pre.spec_has_channel(u),
        forall|u: u128|
            u != c.spec_uuid() && pre.spec_has_channel(u) ==> post.spec_channel(u)
                == pre.spec_channel(u),
        post.spec_channel(c.spec_uuid()) == c,
        post.spec_outstanding() == pre.spec_outstanding(),
        post.spec_available_slots() == pre.spec_available_slots(),
{
    let n = pre.spec_channels().len();
    assert(post.spec_channels()[n as int] == c);
    assert forall|i: int, j: int|
        #![trigger post.spec_channels()[i], post.spec_channels()[j]]
        0 <= i < j < post.spec_channels().len() implies post.spec_channels()[i].spec_uuid()
        != post.spec_channels()[j].spec_uuid() by {
        if j < n {
            assert(pre.spec_channels()[i].spec_uuid() != pre.spec_channels()[j].spec_uuid());
        } else {
            assert(post.spec_channels()[j] == c);
            if post.spec_channels()[i].spec_uuid() == c.spec_uuid() {
                assert(pre.spec_channels()[i].spec_uuid() == c.spec_uuid());
                assert(pre.spec_has_channel(c.spec_uuid()));
            }
        }
    }
    assert forall|u: u128|
        u != c.spec_uuid() implies post.spec_has_channel(u) == pre.spec_has_channel(u) by {
        if pre.spec_has_channel(u) {
            let i = choose|i: int|
                0 <= i < n && (#[trigger] pre.spec_channels()[i]).spec_uuid() == u;
            assert(post.spec_channels()[i].spec_uuid() == u);
        }
        if post.spec_has_channel(u) {
            let i = choose|i: int|
                0 <= i < post.spec_channels().len() && (#[trigger] post.spec_channels()[i])
                    .spec_uuid() == u;
            assert(i < n);
            assert(pre.spec_channels()[i].spec_uuid() == u);
        }
    }
    assert forall|i: int| 0 <= i < post.spec_channels().len() implies (
    #[trigger] post.spec_channels()[i]).inv() by {
        if i < n {
            assert(post.spec_channels()[i] == pre.spec_channels()[i]);
        }
    }
    assert forall|u: u128|
        u != c.spec_uuid() && pre.spec_has_channel(u) implies post.spec_channel(u)
        == pre.spec_channel(u) by {
        let i = pre.spec_index_of(u);
        lemma_index_of_channels(pre, i);
        assert(post.spec_channels()[i].spec_uuid() == u);
        lemma_index_of_channels(post, i);
    }
    lemma_index_of_channels(post, n as int);
    assert(post.spec_outstanding() =~= pre.spec_outstanding());
}

impl ChannelManager {
    /// The raw outstanding entries (an internal view for the lemmas above).
    pub closed spec fn spec_raw_outstanding(&self) -> Seq<(Code, u128)> {
        self.outstanding@
    }

    pub closed spec fn spec_generator(&self) -> CodeGenerator {
        self.code_generator
    }

    /// Finds the position of the channel carrying `uuid`.
    fn find_channel(&self, uuid: u128) -> (r: Option<usize>)
        ensures
            match r {
                Some(k) => k < self.spec_channels().len() && self.spec_channels()[
                    k as int
                ].spec_uuid() == uuid && self.spec_has_channel(uuid),
                None => !self.spec_has_channel(uuid),
            },
    {
        let n = self.channels.len();
        let mut k: usize = 0;
        while k < n
            invariant
                k <= n,
                n == self.channels@.len(),
                forall|i: int| 0 <= i < k as int ==> (#[trigger] self.channels@[i]).spec_uuid() != uuid,
            decreases n - k,
        {
            if self.channels[k].uuid() == uuid {
                return Some(k);
            }
            k += 1;
        }
        None
    }

    /// Whether a channel carries `uuid`.
    pub fn has_channel(&self, uuid: u128) -> (r: bool)
        ensures
            r == self.spec_has_channel(uuid),
    {
        match self.find_channel(uuid) {
            Some(_) => true,
            None => false,
        }
    }

    /// Creates and registers a channel under a fresh random identifier; in
    /// the vanishingly unlikely case that the identifier is already taken,
    /// the old channel is replaced, as a directory insert would.
    pub fn create_channel(&mut self) -> (r: u128)
        requires
            old(self).inv(),
        ensures
            final(self).inv(),
            final(self).spec_has_channel(r),
            final(self).spec_channel(r).spec_uuid() == r,
            final(self).spec_channel(r).spec_members() == Seq::<u64>::empty(),
            final(self).spec_channel(r).spec_next_id() == 0,
            final(self).spec_channel(r).spec_issued() == Set::<u64>::empty(),
            forall|u: u128| u != r ==> final(self).spec_has_channel(u) == old(self).spec_has_channel(u),
            forall|u: u128|
                u != r && old(self).spec_has_channel(u) ==> final(self).spec_channel(u) == old(self).spec_channel(u),
            final(self).spec_outstanding() == old(self).spec_outstanding(),
            final(self).spec_available_slots() == old(self).spec_available_slots(),
    {
        let uuid = random_uuid_value();
        let ch = Channel::new(uuid);
        match self.find_channel(uuid) {
            Some(k) => {
                let ghost pre = *self;
                let _replaced = self.channels.remove(k);
                self.channels.insert(k, ch);
                proof {
                    assert(self.channels@ =~= pre.channels@.update(k as int, self.channels@[k as int]));
                    lemma_update_at(&pre, self, k as int);
                }
                uuid
            },
            None => {
                let ghost pre = *self;
                self.channels.push(ch);
                proof {
                    lemma_push_channel(&pre, self, self.channels@[pre.channels@.len() as int]);
                }
                uuid
            },
        }
    }
}

impl ChannelManager {
    /// Looks a channel up by identifier.
    pub fn get_channel(&self, uuid: u128) -> (r: Option<&Channel>)
        requires
            self.inv(),
        ensures
            match r {
                Some(c) => self.spec_has_channel(uuid) && *c == self.spec_channel(uuid),
                None => !self.spec_has_channel(uuid),
            },
    {
        match self.find_channel(uuid) {
            Some(k) => {
                proof {
                    lemma_index_of_channels(self, k as int);
                }
                Some(&self.channels[k])
            },
            None => None,
        }
    }

    /// Registers a new member on the channel `uuid` and returns its fresh id;
    /// `None` when no such channel exists (or its id counter is spent).
    pub fn add_client(&mut self, uuid: u128) -> (r: Option<u64>)
        requires
            old(self).inv(),
        ensures
            final(self).inv(),
            forall|u: u128| final(self).spec_has_channel(u) == old(self).spec_has_channel(u),
            final(self).spec_outstanding() == old(self).spec_outstanding(),
            final(self).spec_available_slots() == old(self).spec_available_slots(),
            forall|u: u128|
                u != uuid && old(self).spec_has_channel(u) ==> final(self).spec_channel(u) == old(self).spec_channel(u),
            match r {
                Some(id) => old(self).spec_has_channel(uuid) && {
                    let pre = old(self).spec_channel(uuid);
                    let post = final(self).spec_channel(uuid);
                    &&& id == pre.spec_next_id() + 1
                    &&& !pre.spec_issued().contains(id)
                    &&& forall|x: u64| pre.spec_issued().contains(x) ==> x < id
                    &&& post.spec_issued() == pre.spec_issued().insert(id)
                    &&& post.spec_members() == pre.spec_members().push(id)
                    &&& post.spec_next_id() == id
                    &&& post.spec_uuid() == uuid
                },
                None => !old(self).spec_has_channel(uuid) || old(self).spec_channel(
                    uuid,
                ).spec_next_id() == u64::MAX,
            },
            r is None ==> final(self).spec_channels() == old(self).spec_channels(),
    {
        match self.find_channel(uuid) {
            None => None,
            Some(k) => {
                let ghost pre = *self;
                proof {
                    lemma_index_of_channels(self, k as int);
                }
                let mut ch = self.channels.remove(k);
                if ch.next_id == u64::MAX {
                    self.channels.insert(k, ch);
                    proof {
                        assert(self.channels@ =~= pre.channels@.update(
                            k as int,
                            self.channels@[k as int],
                        ));
                        lemma_update_at(&pre, self, k as int);
                        assert(self.channels@ =~= pre.channels@);
                    }
                    return None;
                }
                let id = ch.add_client();
                self.channels.insert(k, ch);
                proof {
                    assert(self.channels@ =~= pre.channels@.update(
                        k as int,
                        self.channels@[k as int],
                    ));
                    lemma_update_at(&pre, self, k as int);
                }
                Some(id)
            },
        }
    }

    /// Removes a member from the channel `uuid`; unknown channels and unknown
    /// ids are ignored.
    pub fn remove_client(&mut self, uuid: u128, sender_id: u64)
        requires
            old(self).inv(),
        ensures
            final(self).inv(),
            forall|u: u128| final(self).spec_has_channel(u) == old(self).spec_has_channel(u),
            final(self).spec_outstanding() == old(self).spec_outstanding(),
            final(self).spec_available_slots() == old(self).spec_available_slots(),
            forall|u: u128|
                u != uuid && old(self).spec_has_channel(u) ==> final(self).spec_channel(u) == old(self).spec_channel(u),
            old(self).spec_has_channel(uuid) ==> {
                let pre = old(self).spec_channel(uuid);
                let post = final(self).spec_channel(uuid);
                &&& !post.spec_members().contains(sender_id)
                &&& forall|x: u64|
                    x != sender_id ==> (post.spec_members().contains(x) == pre.spec_members()
                        .contains(x))
                &&& post.spec_next_id() == pre.spec_next_id()
                &&& post.spec_issued() == pre.spec_issued()
                &&& post.spec_uuid() == uuid
            },
            !old(self).spec_has_channel(uuid) ==> final(self).spec_channels() == old(self).spec_channels(),
    {
        match self.find_channel(uuid) {
            None => {},
            Some(k) => {
                let ghost pre = *self;
                proof {
                    lemma_index_of_channels(self, k as int);
                }
                let mut ch = self.channels.remove(k);
                ch.remove_client(sender_id);
                self.channels.insert(k, ch);
                proof {
                    assert(self.channels@ =~= pre.channels@.update(
                        k as int,
                        self.channels@[k as int],
                    ));
                    lemma_update_at(&pre, self, k as int);
                }
            },
        }
    }

    /// Plans a broadcast of `message` to every member of the channel `uuid`:
    /// one delivery per member; `None` when no such channel exists.
    pub fn broadcast(&self, uuid: u128, message: &OutgoingMessage) -> (r: Option<Vec<Delivery>>)
        requires
            self.inv(),
        ensures
            match r {
                Some(ds) => self.spec_has_channel(uuid) && ds@.len() == self.spec_channel(
                    uuid,
                ).spec_members().len() && forall|i: int|
                    0 <= i < ds@.len() ==> (#[trigger] ds@[i]).client_id == self.spec_channel(
                        uuid,
                    ).spec_members()[i] && ds@[i].text@ == spec_encode_outgoing(message@),
                None => !self.spec_has_channel(uuid),
            },
    {
        match self.find_channel(uuid) {
            None => None,
            Some(k) => {
                proof {
                    lemma_index_of_channels(self, k as int);
                }
                Some(self.channels[k].broadcast(message))
            },
        }
    }

    /// Plans a unicast of `message` to the member `sender_id` of the channel
    /// `uuid`; `None` when no such channel or no such member exists.
    pub fn send(&self, uuid: u128, sender_id: u64, message: &OutgoingMessage) -> (r: Option<
        Delivery,
    >)
        requires
            self.inv(),
        ensures
            match r {
                Some(d) => self.spec_has_channel(uuid) && self.spec_channel(uuid).spec_members()
                    .contains(sender_id) && d.client_id == sender_id && d.text@
                    == spec_encode_outgoing(message@),
                None => !self.spec_has_channel(uuid) || !self.spec_channel(uuid).spec_members()
                    .contains(sender_id),
            },
    {
        match self.find_channel(uuid) {
            None => None,
            Some(k) => {
                proof {
                    lemma_index_of_channels(self, k as int);
                }
                self.channels[k].send(sender_id, message)
            },
        }
    }

    /// A snapshot of the membership of the channel `uuid`.
    pub fn client_ids(&self, uuid: u128) -> (r: Option<Vec<u64>>)
        requires
            self.inv(),
        ensures
            match r {
                Some(ids) => self.spec_has_channel(uuid) && ids@ == self.spec_channel(
                    uuid,
                ).spec_members(),
                None => !self.spec_has_channel(uuid),
            },
    {
        match self.find_channel(uuid) {
            None => None,
            Some(k) => {
                proof {
                    lemma_index_of_channels(self, k as int);
                }
                Some(self.channels[k].client_ids())
            },
        }
    }

    /// Issues a pairing code for the channel `uuid`: a slot no outstanding
    /// code occupies, moved to pending and recorded, with the exact code
    /// value, against that channel. Fails exactly when no slot is available,
    /// changing nothing.
    pub fn generate_code(&mut self, uuid: u128) -> (r: Result<Code, CodeError>)
        requires
            old(self).inv(),
            old(self).spec_has_channel(uuid),
        ensures
            final(self).inv(),
            final(self).spec_channels() == old(self).spec_channels(),
            (r is Err) == (old(self).spec_available_slots().len() == 0),
            match r {
                Ok(code) => {
                    &&& !old(self).spec_outstanding_number(code@.channel_number)
                    &&& old(self).spec_slot_available(code@.channel_number)
                    &&& !final(self).spec_slot_available(code@.channel_number)
                    &&& forall|m: u8|
                        m != code@.channel_number ==> final(self).spec_slot_available(m) == old(self).spec_slot_available(m)
                    &&& final(self).spec_outstanding() == old(self).spec_outstanding().push(
                        (code@, uuid),
                    )
                    &&& exists|i: int|
                        0 <= i < crate::code_generator::WORD_COUNT && code@.word1
                            == crate::code_generator::spec_word(i)
                    &&& exists|i: int|
                        0 <= i < crate::code_generator::WORD_COUNT && code@.word2
                            == crate::code_generator::spec_word(i)
                },
                Err(e) => e == CodeError::ChannelNotAvailable && final(self).spec_outstanding()
                    == old(self).spec_outstanding() && final(self).spec_available_slots() == old(self).spec_available_slots(),
            },
    {
        let ghost pre = *self;
        match self.code_generator.generate() {
            Err(e) => {
                proof {
                    assert(self.outstanding@ == pre.outstanding@);
                    assert(self.channels@ == pre.channels@);
                    assert forall|i: int, j: int|
                        #![trigger self.channels@[i], self.channels@[j]]
                        0 <= i < j < self.channels@.len() implies self.channels@[i].spec_uuid()
                        != self.channels@[j].spec_uuid() by {
                        assert(pre.channels@[i].spec_uuid() != pre.channels@[j].spec_uuid());
                    }
                    assert forall|i: int|
                        0 <= i < self.channels@.len() implies (
                    #[trigger] self.channels@[i]).inv() by {
                        assert(pre.channels@[i].inv());
                    }
                    assert forall|u: u128| self.spec_has_channel(u) == pre.spec_has_channel(
                        u,
                    ) by {
                        if pre.spec_has_channel(u) {
                            let i = choose|i: int|
                                0 <= i < pre.spec_channels().len() && (
                                #[trigger] pre.spec_channels()[i]).spec_uuid() == u;
                            assert(self.spec_channels()[i].spec_uuid() == u);
                        }
                        if self.spec_has_channel(u) {
                            let i = choose|i: int|
                                0 <= i < self.spec_channels().len() && (
                                #[trigger] self.spec_channels()[i]).spec_uuid() == u;
                            assert(pre.spec_channels()[i].spec_uuid() == u);
                        }
                    }
                    assert forall|i: int|
                        0 <= i < self.outstanding@.len() implies !self.code_generator
                        .spec_is_available(
                        (#[trigger] self.outstanding@[i]).0.channel_number,
                    ) by {
                        assert(self.outstanding@[i] == pre.outstanding@[i]);
                        assert(!pre.code_generator.spec_is_available(
                            pre.outstanding@[i].0.channel_number,
                        ));
                        assert(self.code_generator.spec_available()
                            == pre.code_generator.spec_available());
                    }
                    assert forall|i: int|
                        0 <= i < self.outstanding@.len() implies self.spec_has_channel(
                        (#[trigger] self.outstanding@[i]).1,
                    ) by {
                        assert(self.outstanding@[i] == pre.outstanding@[i]);
                        assert(pre.spec_has_channel(pre.outstanding@[i].1));
                    }
                    assert forall|i: int|
                        0 <= i < self.outstanding@.len() implies (
                    #[trigger] self.outstanding@[i]).0.channel_number < self.code_generator
                        .spec_pool_size() by {
                        assert(self.outstanding@[i] == pre.outstanding@[i]);
                        assert(pre.outstanding@[i].0.channel_number
                            < pre.code_generator.spec_pool_size());
                    }
                }
                Err(e)
            },
            Ok(code) => {
                proof {
                    assert(!pre.spec_outstanding_number(code@.channel_number)) by {
                        if pre.spec_outstanding_number(code@.channel_number) {
                            let i = choose|i: int|
                                0 <= i < pre.spec_outstanding().len() && (
                                #[trigger] pre.spec_outstanding()[i]).0.channel_number
                                    == code@.channel_number;
                            assert(!pre.code_generator.spec_is_available(
                                pre.outstanding@[i].0.channel_number,
                            ));
                        }
                    }
                }
                let stored = code.clone();
                self.outstanding.push((stored, uuid));
                proof {
                    assert(self.spec_channels() == pre.spec_channels());
                    assert forall|u: u128| self.spec_has_channel(u) == pre.spec_has_channel(
                        u,
                    ) by {
                        if pre.spec_has_channel(u) {
                            let i = choose|i: int|
                                0 <= i < pre.spec_channels().len() && (
                                #[trigger] pre.spec_channels()[i]).spec_uuid() == u;
                            assert(self.spec_channels()[i].spec_uuid() == u);
                        }
                        if self.spec_has_channel(u) {
                            let i = choose|i: int|
                                0 <= i < self.spec_channels().len() && (
                                #[trigger] self.spec_channels()[i]).spec_uuid() == u;
                            assert(pre.spec_channels()[i].spec_uuid() == u);
                        }
                    }
                    assert(self.spec_outstanding() =~= pre.spec_outstanding().push(
                        (code@, uuid),
                    ));
                    assert(self.channels@ == pre.channels@);
                    assert forall|i: int, j: int|
                        #![trigger self.channels@[i], self.channels@[j]]
                        0 <= i < j < self.channels@.len() implies self.channels@[i].spec_uuid()
                        != self.channels@[j].spec_uuid() by {
                        assert(pre.channels@[i].spec_uuid() != pre.channels@[j].spec_uuid());
                    }
                    assert forall|i: int|
                        0 <= i < self.channels@.len() implies (
                    #[trigger] self.channels@[i]).inv() by {
                        assert(pre.channels@[i].inv());
                    }
                    assert forall|w: u8|
                        w != code@.channel_number implies self.spec_slot_available(w)
                        == pre.spec_slot_available(w) by {
                        assert(self.spec_slot_available(w) == self.code_generator.spec_is_available(
                            w,
                        ));
                        assert(pre.spec_slot_available(w) == pre.code_generator.spec_is_available(
                            w,
                        ));
                    }
                    let m = self.outstanding@.len() - 1;
                    assert forall|i: int|
                        0 <= i < self.outstanding@.len() implies !self.code_generator
                        .spec_is_available(
                        (#[trigger] self.outstanding@[i]).0.channel_number,
                    ) by {
                        if i < m {
                            assert(self.outstanding@[i] == pre.outstanding@[i]);
                            assert(!pre.code_generator.spec_is_available(
                                pre.outstanding@[i].0.channel_number,
                            ));
                        }
                    }
                    assert forall|i: int|
                        0 <= i < self.outstanding@.len() implies (
                    #[trigger] self.outstanding@[i]).0.channel_number < self.code_generator
                        .spec_pool_size() by {
                        if i < m {
                            assert(self.outstanding@[i] == pre.outstanding@[i]);
                            assert(pre.outstanding@[i].0.channel_number
                                < pre.code_generator.spec_pool_size());
                        } else {
                            assert(self.outstanding@[i].0 == stored);
                            assert(stored@.channel_number == code@.channel_number);
                            assert(code@.channel_number < pre.code_generator.spec_pool_size());
                        }
                    }
                    assert forall|i: int|
                        0 <= i < self.outstanding@.len() implies self.spec_has_channel(
                        (#[trigger] self.outstanding@[i]).1,
                    ) by {
                        if i < m {
                            assert(self.outstanding@[i] == pre.outstanding@[i]);
                            assert(pre.spec_has_channel(pre.outstanding@[i].1));
                        }
                    }
                    assert forall|i: int, j: int|
                        #![trigger self.outstanding@[i], self.outstanding@[j]]
                        0 <= i < j < self.outstanding@.len() implies self.outstanding@[i].0
                        .channel_number != self.outstanding@[j].0.channel_number by {
                        if j < m {
                            assert(pre.outstanding@[i].0.channel_number
                                != pre.outstanding@[j].0.channel_number);
                        } else {
                            assert(self.outstanding@[j].0.channel_number == code@.channel_number);
                            if self.outstanding@[i].0.channel_number == code@.channel_number {
                                assert(pre.spec_outstanding()[i].0.channel_number
                                    == code@.channel_number);
                            }
                        }
                    }
                }
                Ok(code)
            },
        }
    }

    /// Consumes a presented code: the outstanding entry on its slot, if any,
    /// is retired whether or not the code matches, the slot is released, and
    /// the issuing channel comes back only when the presented code exactly
    /// equals the one recorded.
    pub fn validate_code(&mut self, code: Code) -> (r: Option<u128>)
        requires
            old(self).inv(),
        ensures
            final(self).inv(),
            final(self).spec_channels() == old(self).spec_channels(),
            !final(self).spec_outstanding_number(code@.channel_number),
            forall|e: (CodeView, u128)|
                e.0.channel_number != code@.channel_number ==> (final(self).spec_outstanding().contains(e) == old(self).spec_outstanding().contains(e)),
            match r {
                Some(uuid) => old(self).spec_outstanding().contains((code@, uuid)) && final(self).spec_slot_available(code@.channel_number) && final(self).spec_has_channel(uuid),
                None => forall|e: (CodeView, u128)|
                    old(self).spec_outstanding().contains(e) ==> e.0 != code@,
            },
            forall|u: u128| old(self).spec_outstanding().contains((code@, u)) ==> r == Some(u),
            !old(self).spec_outstanding_number(code@.channel_number) ==> final(self).spec_available_slots() == old(self).spec_available_slots(),
            old(self).spec_outstanding_number(code@.channel_number) ==> final(self).spec_slot_available(code@.channel_number),
    {
        let n = self.outstanding.len();
        let mut k: usize = 0;
        while k < n && self.outstanding[k].0.channel_number != code.channel_number
            invariant
                k <= n,
                n == self.outstanding@.len(),
                *self == *old(self),
                forall|i: int|
                    0 <= i < k as int ==> (#[trigger] self.outstanding@[i]).0.channel_number
                        != code@.channel_number,
            decreases n - k,
        {
            k += 1;
        }
        if k == n {
            proof {
                assert forall|e: (CodeView, u128)|
                    old(self).spec_outstanding().contains(e) implies e.0.channel_number
                    != code@.channel_number by {
                    let i = choose|i: int|
                        0 <= i < old(self).spec_outstanding().len() && old(self).spec_outstanding()[i] == e;
                    assert(self.outstanding@[i].0.channel_number != code@.channel_number);
                }
                assert(!final(self).spec_outstanding_number(code@.channel_number));
            }
            return None;
        }
        let ghost pre = *self;
        let entry = self.outstanding.remove(k);
        self.code_generator.release(entry.0.channel_number);
        let matched = entry.0 == code;
        proof {
            assert(self.spec_channels() == pre.spec_channels());
            assert forall|u: u128| self.spec_has_channel(u) == pre.spec_has_channel(u) by {
                if pre.spec_has_channel(u) {
                    let i = choose|i: int|
                        0 <= i < pre.spec_channels().len() && (
                        #[trigger] pre.spec_channels()[i]).spec_uuid() == u;
                    assert(self.spec_channels()[i].spec_uuid() == u);
                }
                if self.spec_has_channel(u) {
                    let i = choose|i: int|
                        0 <= i < self.spec_channels().len() && (
                        #[trigger] self.spec_channels()[i]).spec_uuid() == u;
                    assert(pre.spec_channels()[i].spec_uuid() == u);
                }
            }
            assert(entry@ == pre.spec_outstanding()[k as int]);
            assert(entry.0.channel_number == code@.channel_number);
            // the retired entry was the only one on this slot
            assert forall|i: int|
                0 <= i < self.outstanding@.len() implies (#[trigger] self.outstanding@[i]).0
                .channel_number != code@.channel_number by {
                if i < k as int {
                    assert(pre.outstanding@[i].0.channel_number
                        != pre.outstanding@[k as int].0.channel_number);
                } else {
                    assert(self.outstanding@[i] == pre.outstanding@[i + 1]);
                    assert(pre.outstanding@[k as int].0.channel_number
                        != pre.outstanding@[i + 1].0.channel_number);
                }
            }
            // membership of entries on other slots is untouched
            assert forall|e: (CodeView, u128)|
                e.0.channel_number != code@.channel_number implies (final(self).spec_outstanding().contains(e) == pre.spec_outstanding().contains(e)) by {
                if pre.spec_outstanding().contains(e) {
                    let i = choose|i: int|
                        0 <= i < pre.spec_outstanding().len() && pre.spec_outstanding()[i] == e;
                    if i < k as int {
                        assert(self.spec_outstanding()[i] == e);
                    } else {
                        assert(self.spec_outstanding()[i - 1] == e);
                    }
                }
                if final(self).spec_outstanding().contains(e) {
                    let i = choose|i: int|
                        0 <= i < self.spec_outstanding().len() && self.spec_outstanding()[i] == e;
                    if i < k as int {
                        assert(pre.spec_outstanding()[i] == e);
                    } else {
                        assert(pre.spec_outstanding()[i + 1] == e);
                    }
                }
            }
            // an exact match in the old state names exactly this entry
            assert forall|u: u128|
                pre.spec_outstanding().contains((code@, u)) implies entry.0@ == code@ && entry.1
                == u by {
                let i = choose|i: int|
                    0 <= i < pre.spec_outstanding().len() && pre.spec_outstanding()[i] == (
                    code@,
                    u,
                );
                if i != k as int {
                    assert(pre.outstanding@[i].0.channel_number
                        == pre.outstanding@[k as int].0.channel_number);
                }
            }
            // invariants: slots of remaining entries stay unavailable
            assert forall|i: int|
                0 <= i < self.outstanding@.len() implies !self.code_generator.spec_is_available(
                (#[trigger] self.outstanding@[i]).0.channel_number,
            ) by {
                let num = self.outstanding@[i].0.channel_number;
                assert(num != code@.channel_number);
                if i < k as int {
                    assert(!pre.code_generator.spec_is_available(
                        pre.outstanding@[i].0.channel_number,
                    ));
                } else {
                    assert(self.outstanding@[i] == pre.outstanding@[i + 1]);
                    assert(!pre.code_generator.spec_is_available(
                        pre.outstanding@[i + 1].0.channel_number,
                    ));
                }
            }
            assert forall|i: int|
                0 <= i < self.outstanding@.len() implies self.spec_has_channel(
                (#[trigger] self.outstanding@[i]).1,
            ) by {
                if i < k as int {
                    assert(pre.spec_has_channel(pre.outstanding@[i].1));
                } else {
                    assert(self.outstanding@[i] == pre.outstanding@[i + 1]);
                    assert(pre.spec_has_channel(pre.outstanding@[i + 1].1));
                }
            }
            assert forall|i: int, j: int|
                #![trigger self.outstanding@[i], self.outstanding@[j]]
                0 <= i < j < self.outstanding@.len() implies self.outstanding@[i].0.channel_number
                != self.outstanding@[j].0.channel_number by {
                let v = pre.outstanding@;
                if j < k as int {
                    assert(v[i].0.channel_number != v[j].0.channel_number);
                } else if i < k as int {
                    assert(v[i].0.channel_number != v[j + 1].0.channel_number);
                } else {
                    assert(v[i + 1].0.channel_number != v[j + 1].0.channel_number);
                }
            }
            assert(pre.spec_has_channel(pre.outstanding@[k as int].1));
        }
        if matched {
            Some(entry.1)
        } else {
            proof {
                assert forall|e: (CodeView, u128)|
                    pre.spec_outstanding().contains(e) implies e.0 != code@ by {
                    if e.0 == code@ {
                        assert(entry.0@ == code@);
                    }
                }
            }
            None
        }
    }
}

} // verus!
