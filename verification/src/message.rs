//! The values that travel between nodes.

use vstd::prelude::*;

verus! {

/// The name of a topic peers subscribe and publish to.
#[derive(Debug, Clone, PartialEq, Eq)]
pub struct TopicId(pub String);

impl View for TopicId {
    type V = Seq<char>;

    open spec fn view(&self) -> Seq<char> {
        self.0@
    }
}

impl TopicId {
    /// Builds a topic from its name.
    pub fn new(name: &str) -> (topic: TopicId)
        ensures
            topic@ == name@,
    {
        TopicId(name.to_owned())
    }

    /// A second topic with the same name.
    pub(crate) fn duplicate(&self) -> (topic: TopicId)
        ensures
            topic@ == self@,
    {
        TopicId(self.0.clone())
    }

    /// Whether two topics have the same name.
    pub(crate) fn same_as(&self, other: &TopicId) -> (same: bool)
        ensures
            same == (self@ == other@),
    {
        self.0 == other.0
    }
}

/// The 32-byte identifier of a published message.
#[derive(Debug, Clone, Copy, PartialEq, Eq, Hash)]
pub struct MsgId(pub [u8; 32]);

impl MsgId {
    /// Wraps 32 bytes as a message id.
    pub fn from_bytes(bytes: [u8; 32]) -> (id: MsgId)
        ensures
            id.0 == bytes,
    {
        MsgId(bytes)
    }

    /// The id of a message with payload `data`: its digest.
    pub fn from_data(data: &[u8]) -> (id: MsgId)
        ensures
            id.0@ == digest(data@),
            id == digest_id(data@),
    {
        let mut bytes = [0u8; 32];
        let mut lane: usize = 0;
        while lane < 4
            invariant
                lane <= 4,
                forall|i: int| 0 <= i < 8 * lane ==> bytes@[i] == digest(data@)[i],
            decreases 4 - lane,
        {
            let h = fnv_hash(FNV_OFFSET ^ (lane as u64), data);
            let mut k: usize = 0;
            while k < 8
                invariant
                    lane < 4,
                    k <= 8,
                    h == fnv(lane_seed(lane as int), data@),
                    forall|i: int| 0 <= i < 8 * lane + k ==> bytes@[i] == digest(data@)[i],
                decreases 8 - k,
            {
                let b = ((h >> ((8 * k) as u64)) & 0xff) as u8;
                proof {
                    let i = 8 * lane + k;
                    assert(i / 8 == lane as int && i % 8 == k as int);
                }
                bytes.set(8 * lane + k, b);
                k = k + 1;
            }
            lane = lane + 1;
        }
        assert(bytes@ =~= digest(data@));
        let id = MsgId(bytes);
        proof {
            assert(exists|x: MsgId| x.0@ == digest(data@)) by {
                assert(id.0@ == digest(data@));
            }
            let c = digest_id(data@);
            assert(c.0@ == digest(data@));
            assert forall|i: int| 0 <= i < 32 implies c.0[i] == id.0[i] by {
                assert(c.0@[i] == id.0@[i]);
            }
            assert(c.0 =~= id.0);
        }
        id
    }

    /// Whether two ids hold the same bytes.
    pub(crate) fn same_as(&self, other: &MsgId) -> (same: bool)
        ensures
            same == (*self == *other),
    {
        let mut i: usize = 0;
        while i < 32
            invariant
                i <= 32,
                forall|j: int| 0 <= j < i ==> self.0[j] == other.0[j],
            decreases 32 - i,
        {
            if self.0[i] != other.0[i] {
                return false;
            }
            i = i + 1;
        }
        assert(self.0 =~= other.0);
        true
    }
}

/// The FNV-1a offset basis.
pub const FNV_OFFSET: u64 = 0xcbf2_9ce4_8422_2325;

/// The FNV-1a prime.
pub const FNV_PRIME: u64 = 0x0000_0100_0000_01b3;

/// One FNV-1a step: mix in a byte, then multiply by the prime modulo 2^64.
pub open spec fn fnv_step(h: u64, b: u8) -> u64 {
    (((h ^ (b as u64)) as nat * FNV_PRIME as nat) % 0x1_0000_0000_0000_0000) as u64
}

/// The 64-bit FNV-1a hash of `data`, started from `seed`.
pub open spec fn fnv(seed: u64, data: Seq<u8>) -> u64
    decreases data.len(),
{
    if data.len() == 0 {
        seed
    } else {
        fnv_step(fnv(seed, data.drop_last()), data.last())
    }
}

/// The seed of the `lane`-th of the four hashes that make a digest.
pub open spec fn lane_seed(lane: int) -> u64 {
    FNV_OFFSET ^ (lane as u64)
}

/// The 32-byte digest of `data`: four FNV-1a hashes of it, with seeds
/// that differ by lane, each written little-endian.
pub open spec fn digest(data: Seq<u8>) -> Seq<u8> {
    Seq::new(32, |i: int| ((fnv(lane_seed(i / 8), data) >> ((8 * (i % 8)) as u64)) & 0xff) as u8)
}

/// Multiplying by the FNV-1a prime modulo 2^64 is undone by multiplying by
/// its inverse.
proof fn lemma_prime_undone(u: int)
    requires
        0 <= u < 0x1_0000_0000_0000_0000,
    ensures
        (((u * FNV_PRIME) % 0x1_0000_0000_0000_0000) * 0xce96_5057_aff6_957b) % 0x1_0000_0000_0000_0000 == u,
{
    let m: int = 0x1_0000_0000_0000_0000;
    let p: int = FNV_PRIME as int;
    let q: int = 0xce96_5057_aff6_957b;
    let k: int = 887285111055;
    assert(p * q == k * m + 1);
    vstd::arithmetic::div_mod::lemma_mul_mod_noop_left(u * p, q, m);
    assert((u * p) * q == m * (u * k) + u) by (nonlinear_arith)
        requires
            p * q == k * m + 1,
    ;
    vstd::arithmetic::div_mod::lemma_mod_multiples_vanish(u * k, u, m);
    vstd::arithmetic::div_mod::lemma_small_mod(u as nat, m as nat);
}

/// Multiplying by the FNV-1a prime modulo 2^64 sends distinct values to
/// distinct values.
proof fn lemma_prime_injective(u: u64, v: u64)
    requires
        ((u as nat * FNV_PRIME as nat) % 0x1_0000_0000_0000_0000) == ((v as nat * FNV_PRIME as nat)
            % 0x1_0000_0000_0000_0000),
    ensures
        u == v,
{
    lemma_prime_undone(u as int);
    lemma_prime_undone(v as int);
}

/// An FNV-1a step tells states apart: distinct states stay distinct
/// whatever byte comes.
pub proof fn law_fnv_step_keeps_states_apart(h1: u64, h2: u64, b: u8)
    requires
        h1 != h2,
    ensures
        fnv_step(h1, b) != fnv_step(h2, b),
{
    let u1 = h1 ^ (b as u64);
    let u2 = h2 ^ (b as u64);
    assert(u1 != u2) by (bit_vector)
        requires
            h1 != h2,
            u1 == h1 ^ (b as u64),
            u2 == h2 ^ (b as u64),
    ;
    if fnv_step(h1, b) == fnv_step(h2, b) {
        lemma_prime_injective(u1, u2);
    }
}

/// An FNV-1a step tells bytes apart: distinct bytes lead to distinct
/// states from the same state.
pub proof fn law_fnv_step_keeps_bytes_apart(h: u64, x: u8, y: u8)
    requires
        x != y,
    ensures
        fnv_step(h, x) != fnv_step(h, y),
{
    let u1 = h ^ (x as u64);
    let u2 = h ^ (y as u64);
    assert(u1 != u2) by (bit_vector)
        requires
            x != y,
            u1 == h ^ (x as u64),
            u2 == h ^ (y as u64),
    ;
    if fnv_step(h, x) == fnv_step(h, y) {
        lemma_prime_injective(u1, u2);
    }
}

/// FNV-1a mixes in every byte: one byte more is one step more.
pub proof fn law_fnv_appends(seed: u64, data: Seq<u8>, b: u8)
    ensures
        fnv(seed, data.push(b)) == fnv_step(fnv(seed, data), b),
{
    assert(data.push(b).drop_last() =~= data);
}

/// FNV-1a sees every byte: two payloads of one length that differ in one
/// byte, wherever it is, hash apart.
pub proof fn law_fnv_single_change(seed: u64, a: Seq<u8>, b: Seq<u8>, i: int)
    requires
        a.len() == b.len(),
        0 <= i < a.len(),
        a[i] != b[i],
        forall|j: int| 0 <= j < a.len() && j != i ==> a[j] == b[j],
    ensures
        fnv(seed, a) != fnv(seed, b),
    decreases a.len(),
{
    let n = a.len() - 1;
    if i == n {
        assert(a.drop_last() =~= b.drop_last());
        law_fnv_step_keeps_bytes_apart(fnv(seed, a.drop_last()), a.last(), b.last());
    } else {
        law_fnv_single_change(seed, a.drop_last(), b.drop_last(), i);
        assert(a.last() == b.last());
        law_fnv_step_keeps_states_apart(fnv(seed, a.drop_last()), fnv(seed, b.drop_last()), a.last());
    }
}

/// The digest sees every byte: two payloads of one length that differ in
/// one byte have different digests, so different message ids.
pub proof fn law_digest_single_change(a: Seq<u8>, b: Seq<u8>, i: int)
    requires
        a.len() == b.len(),
        0 <= i < a.len(),
        a[i] != b[i],
        forall|j: int| 0 <= j < a.len() && j != i ==> a[j] == b[j],
    ensures
        digest(a) != digest(b),
        digest_id(a) != digest_id(b),
{
    law_fnv_single_change(lane_seed(0), a, b, i);
    let h1 = fnv(lane_seed(0), a);
    let h2 = fnv(lane_seed(0), b);
    if digest(a) == digest(b) {
        let d1 = digest(a);
        let d2 = digest(b);
        assert(d1[0] == d2[0]);
        assert(d1[0] == ((h1 >> 0u64) & 0xff) as u8);
        assert(d2[0] == ((h2 >> 0u64) & 0xff) as u8);
        assert(d1[1] == d2[1]);
        assert(d1[1] == ((h1 >> 8u64) & 0xff) as u8);
        assert(d2[1] == ((h2 >> 8u64) & 0xff) as u8);
        assert(d1[2] == d2[2]);
        assert(d1[2] == ((h1 >> 16u64) & 0xff) as u8);
        assert(d2[2] == ((h2 >> 16u64) & 0xff) as u8);
        assert(d1[3] == d2[3]);
        assert(d1[3] == ((h1 >> 24u64) & 0xff) as u8);
        assert(d2[3] == ((h2 >> 24u64) & 0xff) as u8);
        assert(d1[4] == d2[4]);
        assert(d1[4] == ((h1 >> 32u64) & 0xff) as u8);
        assert(d2[4] == ((h2 >> 32u64) & 0xff) as u8);
        assert(d1[5] == d2[5]);
        assert(d1[5] == ((h1 >> 40u64) & 0xff) as u8);
        assert(d2[5] == ((h2 >> 40u64) & 0xff) as u8);
        assert(d1[6] == d2[6]);
        assert(d1[6] == ((h1 >> 48u64) & 0xff) as u8);
        assert(d2[6] == ((h2 >> 48u64) & 0xff) as u8);
        assert(d1[7] == d2[7]);
        assert(d1[7] == ((h1 >> 56u64) & 0xff) as u8);
        assert(d2[7] == ((h2 >> 56u64) & 0xff) as u8);
        assert(h1 == h2) by (bit_vector)
            requires
                ((h1 >> 0u64) & 0xff) as u8 == ((h2 >> 0u64) & 0xff) as u8,
                ((h1 >> 8u64) & 0xff) as u8 == ((h2 >> 8u64) & 0xff) as u8,
                ((h1 >> 16u64) & 0xff) as u8 == ((h2 >> 16u64) & 0xff) as u8,
                ((h1 >> 24u64) & 0xff) as u8 == ((h2 >> 24u64) & 0xff) as u8,
                ((h1 >> 32u64) & 0xff) as u8 == ((h2 >> 32u64) & 0xff) as u8,
                ((h1 >> 40u64) & 0xff) as u8 == ((h2 >> 40u64) & 0xff) as u8,
                ((h1 >> 48u64) & 0xff) as u8 == ((h2 >> 48u64) & 0xff) as u8,
                ((h1 >> 56u64) & 0xff) as u8 == ((h2 >> 56u64) & 0xff) as u8,
        ;
    }
    if digest_id(a) == digest_id(b) {
        lemma_digest_id(a);
        lemma_digest_id(b);
    }
}

/// An array of 32 bytes whose first `n` bytes are those of `s`.
spec fn filled(s: Seq<u8>, n: nat) -> [u8; 32]
    decreases n,
{
    if n == 0 {
        vstd::array::spec_array_fill_for_copy_type::<u8, 32>(0u8)
    } else {
        vstd::array::spec_array_update(filled(s, (n - 1) as nat), n - 1, s[n - 1])
    }
}

proof fn lemma_filled(s: Seq<u8>, n: nat)
    requires
        n <= 32,
    ensures
        filled(s, n)@.len() == 32,
        forall|i: int| 0 <= i < n ==> filled(s, n)@[i] == s[i],
    decreases n,
{
    if n > 0 {
        lemma_filled(s, (n - 1) as nat);
    } else {
        let a = vstd::array::spec_array_fill_for_copy_type::<u8, 32>(0u8);
        assert(a@.len() == 32);
    }
}

/// The id `digest_id` names has the digest for its bytes.
proof fn lemma_digest_id(data: Seq<u8>)
    ensures
        digest_id(data).0@ == digest(data),
{
    lemma_filled(digest(data), 32);
    let w = MsgId(filled(digest(data), 32));
    assert(w.0@ =~= digest(data));
}

/// The message id whose bytes are the digest of `data`.
pub open spec fn digest_id(data: Seq<u8>) -> MsgId {
    choose|id: MsgId| id.0@ == digest(data)
}

/// The FNV-1a hash of `data` from `seed`.
fn fnv_hash(seed: u64, data: &[u8]) -> (h: u64)
    ensures
        h == fnv(seed, data@),
{
    let mut h = seed;
    let mut i: usize = 0;
    while i < data.len()
        invariant
            i <= data.len(),
            h == fnv(seed, data@.subrange(0, i as int)),
        decreases data.len() - i,
    {
        proof {
            let next = data@.subrange(0, i + 1);
            assert(next.drop_last() =~= data@.subrange(0, i as int));
            assert(next.last() == data@[i as int]);
        }
        h = (h ^ (data[i] as u64)).wrapping_mul(FNV_PRIME);
        i = i + 1;
    }
    assert(data@.subrange(0, data.len() as int) =~= data@);
    h
}

/// The bytes a publisher sends on a topic.
#[derive(Debug, Clone, PartialEq, Eq)]
pub struct Payload(pub Vec<u8>);

impl View for Payload {
    type V = Seq<u8>;

    open spec fn view(&self) -> Seq<u8> {
        self.0@
    }
}

impl Payload {
    /// A second payload with the same bytes.
    pub(crate) fn duplicate(&self) -> (p: Payload)
        ensures
            p@ == self@,
    {
        let bytes = self.0.clone();
        assert(bytes@ =~= self.0@);
        Payload(bytes)
    }
}

/// A request one node sends to another.
///
/// Besides subscriptions and publications: `IHave` tells a peer that this
/// node holds a message, `IWant` asks a peer for the message it announced,
/// `Graft` and `Prune` add the sender to, or drop it from, the receiver's
/// mesh of a topic.
#[derive(Debug, Clone, PartialEq, Eq)]
pub enum WireMsg {
    Subscribe { topic: TopicId },
    Unsubscribe { topic: TopicId },
    Publish { topic: TopicId, msg_id: MsgId, data: Payload },
    IHave { topic: TopicId, msg_id: MsgId },
    IWant { msg_id: MsgId },
    Graft { topic: TopicId },
    Prune { topic: TopicId },
}

/// What a request is, as a mathematical value.
pub enum WireMsgView {
    Subscribe { topic: Seq<char> },
    Unsubscribe { topic: Seq<char> },
    Publish { topic: Seq<char>, msg_id: MsgId, data: Seq<u8> },
    IHave { topic: Seq<char>, msg_id: MsgId },
    IWant { msg_id: MsgId },
    Graft { topic: Seq<char> },
    Prune { topic: Seq<char> },
}

impl View for WireMsg {
    type V = WireMsgView;

    open spec fn view(&self) -> WireMsgView {
        match self {
            WireMsg::Subscribe { topic } => WireMsgView::Subscribe { topic: topic@ },
            WireMsg::Unsubscribe { topic } => WireMsgView::Unsubscribe { topic: topic@ },
            WireMsg::Publish { topic, msg_id, data } => WireMsgView::Publish {
                topic: topic@,
                msg_id: *msg_id,
                data: data@,
            },
            WireMsg::IHave { topic, msg_id } => WireMsgView::IHave { topic: topic@, msg_id: *msg_id },
            WireMsg::IWant { msg_id } => WireMsgView::IWant { msg_id: *msg_id },
            WireMsg::Graft { topic } => WireMsgView::Graft { topic: topic@ },
            WireMsg::Prune { topic } => WireMsgView::Prune { topic: topic@ },
        }
    }
}

/// The answer to a request: whether the node accepted it.
#[derive(Debug, Clone, Copy, PartialEq, Eq)]
pub struct Ack {
    pub ok: bool,
}

} // verus!
