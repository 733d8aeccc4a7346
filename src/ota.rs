//! Over-the-air firmware transfer: one session per node, driven by the
//! node's configuration and block requests.
//!
//! A node without a session is idle. A configuration request for an image
//! in the catalog negotiates and starts streaming at once: the reply carries
//! the block count and checksum. An aborted or expired session is removed,
//! so the node is idle again and must renegotiate.

use vstd::prelude::*;
use crate::firmware::{FirmwareImage, ImageView, image_wf, block_count, block_data};
use crate::hexcodec::{hex_decoded, hex_upper_text};
use crate::interceptor::{
    FIRMWARE_CONFIG_REQUEST,
    FIRMWARE_CONFIG_RESPONSE,
    FIRMWARE_REQUEST,
    FIRMWARE_RESPONSE,
};
use crate::message::{Command, Message, MessageView};

verus! {

/// Number of node ids; a session table holds one slot for each.
pub const NODE_SLOTS: usize = 256;

/// The read-only map from `(type, version)` to a firmware image.
pub struct FirmwareCatalog {
    images: Vec<FirmwareImage>,
}

pub open spec fn image_matches(i: ImageView, t: u16, v: u16) -> bool {
    i.type_id == t && i.version == v
}

/// Index of the first image of type `t` and version `v`, or -1.
pub open spec fn first_match(cat: Seq<ImageView>, t: u16, v: u16) -> int
    decreases cat.len(),
{
    if cat.len() == 0 {
        -1
    } else {
        let r = first_match(cat.drop_last(), t, v);
        if r >= 0 {
            r
        } else if image_matches(cat.last(), t, v) {
            cat.len() - 1
        } else {
            -1
        }
    }
}

proof fn lemma_first_match(cat: Seq<ImageView>, t: u16, v: u16)
    ensures
        -1 <= first_match(cat, t, v) < cat.len(),
        first_match(cat, t, v) >= 0 ==> image_matches(cat[first_match(cat, t, v)], t, v),
        first_match(cat, t, v) == -1 <==> forall|i: int|
            0 <= i < cat.len() ==> !image_matches(#[trigger] cat[i], t, v),
    decreases cat.len(),
{
    if cat.len() > 0 {
        lemma_first_match(cat.drop_last(), t, v);
        assert forall|i: int| 0 <= i < cat.len() - 1 implies #[trigger] cat[i] == cat.drop_last()[i] by {}
    }
}

proof fn lemma_first_match_prefix(cat: Seq<ImageView>, k: int, t: u16, v: u16)
    requires
        0 <= k <= cat.len(),
        first_match(cat.take(k), t, v) >= 0,
    ensures
        first_match(cat, t, v) == first_match(cat.take(k), t, v),
    decreases cat.len() - k,
{
    if k < cat.len() {
        assert(cat.take(k + 1).drop_last() =~= cat.take(k));
        lemma_first_match_prefix(cat, k + 1, t, v);
    } else {
        assert(cat.take(k) =~= cat);
    }
}

impl View for FirmwareCatalog {
    type V = Seq<ImageView>;

    closed spec fn view(&self) -> Seq<ImageView> {
        self.images@.map_values(|i: FirmwareImage| i@)
    }
}

impl FirmwareCatalog {
    pub open spec fn wf(&self) -> bool {
        forall|i: int| 0 <= i < self@.len() ==> image_wf(#[trigger] self@[i])
    }

    #[verifier::type_invariant]
    pub closed spec fn inv(&self) -> bool {
        self.wf()
    }

    pub fn new() -> (r: FirmwareCatalog)
        ensures
            r@ == Seq::<ImageView>::empty(),
            r.wf(),
    {
        let r = FirmwareCatalog { images: Vec::new() };
        assert(r@ =~= Seq::<ImageView>::empty());
        r
    }

    /// Adds an image; an earlier image of the same type and version keeps
    /// precedence.
    pub fn add(&mut self, img: FirmwareImage)
        ensures
            final(self)@ == old(self)@.push(img@),
    {
        proof {
            use_type_invariant(&*self);
            use_type_invariant(&img);
        }
        let mut taken = FirmwareCatalog { images: Vec::new() };
        proof {
            assert(taken@ =~= Seq::<ImageView>::empty());
        }
        core::mem::swap(self, &mut taken);
        proof {
            use_type_invariant(&taken);
            assert(taken@ == old(self)@);
        }
        let mut images = taken.images;
        images.push(img);
        let ghost v = images@.map_values(|i: FirmwareImage| i@);
        assert(v =~= old(self)@.push(img@));
        assert forall|i: int| 0 <= i < v.len() implies image_wf(#[trigger] v[i]) by {
            if i < v.len() - 1 {
                assert(v[i] == old(self)@[i]);
            }
        }
        let next = FirmwareCatalog { images };
        assert(next@ =~= old(self)@.push(img@));
        *self = next;
    }

    pub fn len(&self) -> (r: usize)
        ensures
            r == self@.len(),
    {
        self.images.len()
    }

    /// The index of the image of type `t` and version `v`.
    pub fn find(&self, t: u16, v: u16) -> (r: Option<usize>)
        ensures
            match r {
                Some(i) => i as int == first_match(self@, t, v),
                None => first_match(self@, t, v) == -1,
            },
    {
        let mut i: usize = 0;
        while i < self.images.len()
            invariant
                i <= self.images@.len(),
                self@.len() == self.images@.len(),
                first_match(self@.take(i as int), t, v) == -1,
            decreases self.images.len() - i,
        {
            proof {
                assert(self@.take(i + 1).drop_last() =~= self@.take(i as int));
                assert(self@[i as int] == self.images@[i as int]@);
            }
            if self.images[i].type_id() == t && self.images[i].version() == v {
                proof {
                    lemma_first_match_prefix(self@, i + 1, t, v);
                }
                return Some(i);
            }
            i = i + 1;
        }
        assert(self@.take(i as int) =~= self@);
        None
    }

    pub fn get(&self, i: usize) -> (r: &FirmwareImage)
        requires
            i < self@.len(),
        ensures
            r@ == self@[i as int],
            image_wf(r@),
    {
        proof {
            use_type_invariant(self);
        }
        &self.images[i]
    }
}

#[derive(Clone, Copy, Debug, PartialEq, Eq, Structural)]
pub enum OtaState {
    /// Blocks are being served.
    Streaming,
    /// Every block was served; duplicate tail requests are still answered.
    Completed,
}

/// The transfer state of one node.
#[derive(Clone, Copy, Debug, PartialEq, Eq, Structural)]
pub struct OtaSession {
    pub node_id: u8,
    pub firmware_type: u16,
    pub firmware_version: u16,
    pub next_expected_block: u16,
    pub total_blocks: u16,
    pub state: OtaState,
    pub last_activity: u64,
}

/// The answer to a firmware configuration request.
#[derive(Clone, Copy, Debug, PartialEq, Eq, Structural)]
pub enum ConfigReply {
    /// No image of that type and version: nothing to update.
    NoUpdate,
    /// The image to load: its number of blocks and its checksum.
    Offer { blocks: u16, crc: u16 },
}

pub open spec fn session_wf(s: OtaSession) -> bool {
    &&& s.next_expected_block <= s.total_blocks
    &&& (s.state == OtaState::Completed <==> s.next_expected_block == s.total_blocks)
}

/// The sessions after a configuration request of `node` for `(t, v)`, and
/// the reply. A request for an image that the catalog lacks creates nothing.
pub open spec fn config_step(
    table: Seq<Option<OtaSession>>,
    cat: Seq<ImageView>,
    node: u8,
    t: u16,
    v: u16,
    now: u64,
) -> (Seq<Option<OtaSession>>, ConfigReply) {
    let i = first_match(cat, t, v);
    if i < 0 {
        (table, ConfigReply::NoUpdate)
    } else {
        let img = cat[i];
        (
            table.update(
                node as int,
                Some(
                    OtaSession {
                        node_id: node,
                        firmware_type: t,
                        firmware_version: v,
                        next_expected_block: 0,
                        total_blocks: block_count(img) as u16,
                        state: OtaState::Streaming,
                        last_activity: now,
                    },
                ),
            ),
            ConfigReply::Offer { blocks: block_count(img) as u16, crc: img.crc },
        )
    }
}

/// The sessions after a request of `node` for block `n` of `(t, v)`, and
/// the block's bytes, or `None` where the session is aborted (or there is
/// none).
pub open spec fn block_step(
    table: Seq<Option<OtaSession>>,
    cat: Seq<ImageView>,
    node: u8,
    t: u16,
    v: u16,
    n: u16,
    now: u64,
) -> (Seq<Option<OtaSession>>, Option<Seq<u8>>) {
    match table[node as int] {
        None => (table, None),
        Some(s) => {
            let i = first_match(cat, t, v);
            if s.firmware_type != t || s.firmware_version != v || i < 0 || block_count(cat[i])
                != s.total_blocks {
                (table.update(node as int, None), None)
            } else if n < s.next_expected_block {
                (
                    table.update(node as int, Some(OtaSession { last_activity: now, ..s })),
                    Some(block_data(cat[i], n as nat)),
                )
            } else if n == s.next_expected_block && n < s.total_blocks {
                let next = (n + 1) as u16;
                (
                    table.update(
                        node as int,
                        Some(
                            OtaSession {
                                next_expected_block: next,
                                state: if next == s.total_blocks {
                                    OtaState::Completed
                                } else {
                                    OtaState::Streaming
                                },
                                last_activity: now,
                                ..s
                            },
                        ),
                    ),
                    Some(block_data(cat[i], n as nat)),
                )
            } else {
                (table.update(node as int, None), None)
            }
        },
    }
}

/// Whether a session has seen nothing for longer than `timeout` at `now`.
pub open spec fn idle(s: OtaSession, now: u64, timeout: u64) -> bool {
    now >= s.last_activity && now - s.last_activity > timeout
}

/// The sessions left once every idle one is removed.
pub open spec fn expire_step(table: Seq<Option<OtaSession>>, now: u64, timeout: u64) -> Seq<
    Option<OtaSession>,
> {
    Seq::new(
        table.len(),
        |i: int|
            match table[i] {
                Some(s) => if idle(s, now, timeout) {
                    None
                } else {
                    Some(s)
                },
                None => None,
            },
    )
}

/// A 16-bit value as two bytes, the low byte first.
pub open spec fn le16(x: u16) -> Seq<u8> {
    seq![(x % 256) as u8, (x / 256) as u8]
}

/// The 16-bit value whose low byte is `d[i]` and high byte `d[i + 1]`.
pub open spec fn read_le16(d: Seq<u8>, i: int) -> u16 {
    (d[i] as nat + 256 * (d[i + 1] as nat)) as u16
}

/// A reply to `m`, addressed as `m` was, carrying `body` as hexadecimal text.
pub open spec fn reply_to(m: MessageView, sub: u8, body: Seq<u8>) -> MessageView {
    MessageView {
        node_id: m.node_id,
        child_sensor_id: m.child_sensor_id,
        command: m.command,
        ack: false,
        sub_type: sub,
        payload: hex_upper_text(body),
    }
}

/// The body of a configuration reply: type, version, block count and
/// checksum; "no update" has zero blocks and a zero checksum.
pub open spec fn config_reply_body(t: u16, v: u16, reply: ConfigReply) -> Seq<u8> {
    match reply {
        ConfigReply::NoUpdate => le16(t) + le16(v) + le16(0) + le16(0),
        ConfigReply::Offer { blocks, crc } => le16(t) + le16(v) + le16(blocks) + le16(crc),
    }
}

/// The body of a block reply: type, version, block number and the block.
pub open spec fn block_reply_body(t: u16, v: u16, n: u16, data: Seq<u8>) -> Seq<u8> {
    le16(t) + le16(v) + le16(n) + data
}

/// The sessions after a firmware message `m`, and the reply to send back, if
/// any. A configuration request carries type and version in its first four
/// bytes, a block request type, version and block number in its first six;
/// one whose payload is not such hexadecimal text is ignored.
pub open spec fn firmware_step(
    table: Seq<Option<OtaSession>>,
    cat: Seq<ImageView>,
    m: MessageView,
    now: u64,
) -> (Seq<Option<OtaSession>>, Option<MessageView>) {
    if m.command == Command::Internal && m.sub_type == FIRMWARE_CONFIG_REQUEST {
        match hex_decoded(m.payload) {
            Some(d) => if d.len() >= 4 {
                let t = read_le16(d, 0);
                let v = read_le16(d, 2);
                let (next, reply) = config_step(table, cat, m.node_id, t, v, now);
                (next, Some(reply_to(m, FIRMWARE_CONFIG_RESPONSE, config_reply_body(t, v, reply))))
            } else {
                (table, None)
            },
            None => (table, None),
        }
    } else if m.command == Command::Stream && m.sub_type == FIRMWARE_REQUEST {
        match hex_decoded(m.payload) {
            Some(d) => if d.len() >= 6 {
                let t = read_le16(d, 0);
                let v = read_le16(d, 2);
                let n = read_le16(d, 4);
                let (next, block) = block_step(table, cat, m.node_id, t, v, n, now);
                match block {
                    Some(b) => (next, Some(reply_to(m, FIRMWARE_RESPONSE, block_reply_body(t, v, n, b)))),
                    None => (next, None),
                }
            } else {
                (table, None)
            },
            None => (table, None),
        }
    } else {
        (table, None)
    }
}

fn push_le16(out: &mut Vec<u8>, x: u16)
    ensures
        final(out)@ == old(out)@ + le16(x),
{
    out.push((x % 256) as u8);
    out.push((x / 256) as u8);
    assert(final(out)@ =~= old(out)@ + le16(x));
}

fn get_le16(d: &Vec<u8>, i: usize) -> (r: u16)
    requires
        i < d.len(),
        i + 1 < d.len(),
    ensures
        r == read_le16(d@, i as int),
{
    d[i] as u16 + 256 * (d[i + 1] as u16)
}

/// A reply to `m` carrying `body` as hexadecimal text.
fn make_reply(m: &Message, sub: u8, body: &Vec<u8>) -> (r: Message)
    ensures
        r@ == reply_to(m@, sub, body@),
{
    Message {
        node_id: m.node_id,
        child_sensor_id: m.child_sensor_id,
        command: m.command,
        ack: false,
        sub_type: sub,
        payload: crate::hexcodec::encode_upper(body),
    }
}

/// The table of transfer sessions, one slot per node id.
pub struct OtaManager {
    sessions: Vec<Option<OtaSession>>,
    timeout: u64,
}

impl View for OtaManager {
    type V = Seq<Option<OtaSession>>;

    closed spec fn view(&self) -> Seq<Option<OtaSession>> {
        self.sessions@
    }
}

/// One slot per node, each session in the slot of its node.
pub open spec fn table_wf(t: Seq<Option<OtaSession>>) -> bool {
    &&& t.len() == NODE_SLOTS
    &&& forall|i: int|
        0 <= i < t.len() ==> match #[trigger] t[i] {
            Some(s) => s.node_id as int == i && session_wf(s),
            None => true,
        }
}

impl OtaManager {
    pub closed spec fn spec_timeout(&self) -> u64 {
        self.timeout
    }

    pub open spec fn wf(&self) -> bool {
        table_wf(self@)
    }

    /// An empty table; sessions idle for more than `timeout` are expired.
    pub fn new(timeout: u64) -> (r: OtaManager)
        ensures
            r.wf(),
            r.spec_timeout() == timeout,
            forall|i: int| 0 <= i < NODE_SLOTS ==> (#[trigger] r@[i]) is None,
    {
        let mut sessions: Vec<Option<OtaSession>> = Vec::new();
        let mut i: usize = 0;
        while i < NODE_SLOTS
            invariant
                i <= NODE_SLOTS,
                sessions@.len() == i,
                forall|j: int| 0 <= j < i ==> (#[trigger] sessions@[j]) is None,
            decreases NODE_SLOTS - i,
        {
            sessions.push(None);
            i = i + 1;
        }
        OtaManager { sessions, timeout }
    }

    pub fn timeout(&self) -> (r: u64)
        ensures
            r == self.spec_timeout(),
    {
        self.timeout
    }

    /// The session of `node`, if it has one.
    pub fn session(&self, node: u8) -> (r: Option<OtaSession>)
        requires
            self.wf(),
        ensures
            r == self@[node as int],
    {
        self.sessions[node as usize]
    }

    /// Answers a firmware configuration request of `node` for `(t, v)`.
    pub fn config_request(
        &mut self,
        cat: &FirmwareCatalog,
        node: u8,
        t: u16,
        v: u16,
        now: u64,
    ) -> (r: ConfigReply)
        requires
            old(self).wf(),
        ensures
            final(self).wf(),
            final(self).spec_timeout() == old(self).spec_timeout(),
            (final(self)@, r) == config_step(old(self)@, cat@, node, t, v, now),
    {
        proof {
            use_type_invariant(cat);
            lemma_first_match(cat@, t, v);
        }
        match cat.find(t, v) {
            None => ConfigReply::NoUpdate,
            Some(i) => {
                let img = cat.get(i);
                let blocks = img.blocks();
                let s = OtaSession {
                    node_id: node,
                    firmware_type: t,
                    firmware_version: v,
                    next_expected_block: 0,
                    total_blocks: blocks,
                    state: OtaState::Streaming,
                    last_activity: now,
                };
                self.sessions.set(node as usize, Some(s));
                ConfigReply::Offer { blocks, crc: img.crc() }
            },
        }
    }

    /// Answers a request of `node` for block `n` of `(t, v)`: the block's
    /// bytes, or `None` where the session is aborted or missing.
    pub fn block_request(
        &mut self,
        cat: &FirmwareCatalog,
        node: u8,
        t: u16,
        v: u16,
        n: u16,
        now: u64,
    ) -> (r: Option<Vec<u8>>)
        requires
            old(self).wf(),
        ensures
            final(self).wf(),
            final(self).spec_timeout() == old(self).spec_timeout(),
            final(self)@ == block_step(old(self)@, cat@, node, t, v, n, now).0,
            match r {
                Some(b) => block_step(old(self)@, cat@, node, t, v, n, now).1 == Some(b@),
                None => block_step(old(self)@, cat@, node, t, v, n, now).1 is None,
            },
    {
        proof {
            use_type_invariant(cat);
            lemma_first_match(cat@, t, v);
        }
        let s = match self.sessions[node as usize] {
            None => return None,
            Some(s) => s,
        };
        let idx = cat.find(t, v);
        if s.firmware_type != t || s.firmware_version != v || idx.is_none() {
            self.sessions.set(node as usize, None);
            return None;
        }
        let img = cat.get(idx.unwrap());
        if img.blocks() != s.total_blocks {
            self.sessions.set(node as usize, None);
            return None;
        }
        if n < s.next_expected_block {
            self.sessions.set(node as usize, Some(OtaSession { last_activity: now, ..s }));
            Some(img.block(n))
        } else if n == s.next_expected_block && n < s.total_blocks {
            let next = n + 1;
            let state = if next == s.total_blocks {
                OtaState::Completed
            } else {
                OtaState::Streaming
            };
            self.sessions.set(
                node as usize,
                Some(OtaSession { next_expected_block: next, state, last_activity: now, ..s }),
            );
            Some(img.block(n))
        } else {
            self.sessions.set(node as usize, None);
            None
        }
    }

    /// Handles a firmware message from a node: updates its session and
    /// returns the reply to send back, if any.
    pub fn handle_firmware_message(&mut self, cat: &FirmwareCatalog, m: &Message, now: u64) -> (r:
        Option<Message>)
        requires
            old(self).wf(),
        ensures
            final(self).wf(),
            final(self).spec_timeout() == old(self).spec_timeout(),
            final(self)@ == firmware_step(old(self)@, cat@, m@, now).0,
            match r {
                Some(reply) => firmware_step(old(self)@, cat@, m@, now).1 == Some(reply@),
                None => firmware_step(old(self)@, cat@, m@, now).1 is None,
            },
    {
        if m.command == Command::Internal && m.sub_type == FIRMWARE_CONFIG_REQUEST {
            let d = match crate::hexcodec::decode(&m.payload) {
                Some(d) => d,
                None => return None,
            };
            if d.len() < 4 {
                return None;
            }
            let t = get_le16(&d, 0);
            let v = get_le16(&d, 2);
            let reply = self.config_request(cat, m.node_id, t, v, now);
            let mut body: Vec<u8> = Vec::new();
            push_le16(&mut body, t);
            push_le16(&mut body, v);
            match reply {
                ConfigReply::NoUpdate => {
                    push_le16(&mut body, 0);
                    push_le16(&mut body, 0);
                },
                ConfigReply::Offer { blocks, crc } => {
                    push_le16(&mut body, blocks);
                    push_le16(&mut body, crc);
                },
            }
            assert(body@ =~= config_reply_body(t, v, reply));
            Some(make_reply(m, FIRMWARE_CONFIG_RESPONSE, &body))
        } else if m.command == Command::Stream && m.sub_type == FIRMWARE_REQUEST {
            let d = match crate::hexcodec::decode(&m.payload) {
                Some(d) => d,
                None => return None,
            };
            if d.len() < 6 {
                return None;
            }
            let t = get_le16(&d, 0);
            let v = get_le16(&d, 2);
            let n = get_le16(&d, 4);
            match self.block_request(cat, m.node_id, t, v, n, now) {
                Some(block) => {
                    let mut body: Vec<u8> = Vec::new();
                    push_le16(&mut body, t);
                    push_le16(&mut body, v);
                    push_le16(&mut body, n);
                    let mut i: usize = 0;
                    let ghost head = body@;
                    while i < block.len()
                        invariant
                            i <= block@.len(),
                            body@ =~= head + block@.take(i as int),
                        decreases block.len() - i,
                    {
                        body.push(block[i]);
                        i = i + 1;
                    }
                    assert(block@.take(block@.len() as int) =~= block@);
                    assert(body@ =~= block_reply_body(t, v, n, block@));
                    Some(make_reply(m, FIRMWARE_RESPONSE, &body))
                },
                None => None,
            }
        } else {
            None
        }
    }

    /// Removes every session idle for longer than the timeout at `now`.
    pub fn expire(&mut self, now: u64)
        requires
            old(self).wf(),
        ensures
            final(self).wf(),
            final(self).spec_timeout() == old(self).spec_timeout(),
            final(self)@ == expire_step(old(self)@, now, old(self).spec_timeout()),
    {
        let ghost start = self.sessions@;
        let mut i: usize = 0;
        while i < self.sessions.len()
            invariant
                self.wf(),
                self.timeout == old(self).timeout,
                start == old(self)@,
                start.len() == self.sessions@.len(),
                i <= self.sessions@.len(),
                forall|j: int|
                    0 <= j < i ==> #[trigger] self.sessions@[j] == expire_step(
                        start,
                        now,
                        self.timeout,
                    )[j],
                forall|j: int| i <= j < self.sessions@.len() ==> #[trigger] self.sessions@[j] == start[j],
            decreases self.sessions@.len() - i,
        {
            if let Some(s) = self.sessions[i] {
                if now >= s.last_activity && now - s.last_activity > self.timeout {
                    self.sessions.set(i, None);
                }
            }
            assert(self.sessions@[i as int] == expire_step(start, now, self.timeout)[i as int]);
            i = i + 1;
        }
        assert(self.sessions@ =~= expire_step(start, now, self.timeout));
    }
}


pub open spec fn catalog_wf(cat: Seq<ImageView>) -> bool {
    forall|i: int| 0 <= i < cat.len() ==> image_wf(#[trigger] cat[i])
}

/// While streaming, a request for a block already served returns the same
/// bytes each time and leaves the counter where it was; a request beyond
/// the counter aborts the session.
pub proof fn lemma_repeated_block(
    table: Seq<Option<OtaSession>>,
    cat: Seq<ImageView>,
    node: u8,
    t: u16,
    v: u16,
    n: u16,
    now1: u64,
    now2: u64,
)
    requires
        table_wf(table),
        table[node as int] is Some,
    ensures
        ({
            let s = table[node as int]->Some_0;
            let (t1, r1) = block_step(table, cat, node, t, v, n, now1);
            let (t2, r2) = block_step(t1, cat, node, t, v, n, now2);
            &&& n < s.next_expected_block ==> r1 == r2
            &&& n < s.next_expected_block && r1 is Some ==> t1[node as int] == Some(
                OtaSession { last_activity: now1, ..s },
            )
            &&& n > s.next_expected_block ==> r1 is None && t1[node as int] is None
        }),
{
}

/// The sessions after `node` asks for blocks `0 .. k` of `(t, v)` in turn.
pub open spec fn serve_in_order(
    table: Seq<Option<OtaSession>>,
    cat: Seq<ImageView>,
    node: u8,
    t: u16,
    v: u16,
    k: nat,
    now: u64,
) -> Seq<Option<OtaSession>>
    decreases k,
{
    if k == 0 {
        table
    } else {
        block_step(serve_in_order(table, cat, node, t, v, (k - 1) as nat, now), cat, node, t, v, (k - 1) as u16, now).0
    }
}

proof fn lemma_serve_prefix(
    table: Seq<Option<OtaSession>>,
    cat: Seq<ImageView>,
    node: u8,
    t: u16,
    v: u16,
    k: nat,
    now: u64,
    now0: u64,
)
    requires
        catalog_wf(cat),
        first_match(cat, t, v) >= 0,
        table.len() == NODE_SLOTS,
        k <= block_count(cat[first_match(cat, t, v)]),
    ensures
        ({
            let b = block_count(cat[first_match(cat, t, v)]);
            let start = config_step(table, cat, node, t, v, now0).0;
            &&& serve_in_order(start, cat, node, t, v, k, now).len() == NODE_SLOTS
            &&& serve_in_order(start, cat, node, t, v, k, now)[node as int] == Some(
                OtaSession {
                    node_id: node,
                    firmware_type: t,
                    firmware_version: v,
                    next_expected_block: k as u16,
                    total_blocks: b as u16,
                    state: if k == b {
                        OtaState::Completed
                    } else {
                        OtaState::Streaming
                    },
                    last_activity: if k == 0 {
                        now0
                    } else {
                        now
                    },
                },
            )
        }),
    decreases k,
{
    lemma_first_match(cat, t, v);
    let i = first_match(cat, t, v);
    assert(image_wf(cat[i]));
    let b = block_count(cat[i]);
    assert(0 < b <= 4096);
    assert(b as u16 == b);
    let start = config_step(table, cat, node, t, v, now0).0;
    if k > 0 {
        lemma_serve_prefix(table, cat, node, t, v, (k - 1) as nat, now, now0);
        let prev = serve_in_order(start, cat, node, t, v, (k - 1) as nat, now);
        let s = prev[node as int]->Some_0;
        assert(s.next_expected_block == (k - 1) as u16);
        assert(((k - 1) as u16) < s.total_blocks);
        assert(serve_in_order(start, cat, node, t, v, k, now) == block_step(prev, cat, node, t, v, (k - 1) as u16, now).0);
        assert(s.firmware_type == t && s.firmware_version == v);
        assert(block_count(cat[i]) == s.total_blocks);
        assert((((k - 1) as u16) + 1) as u16 == k as u16);
    } else {
        assert(serve_in_order(start, cat, node, t, v, 0, now) == start);
        assert(start[node as int] is Some);
    }
}

/// Starting from a fresh session on an image of `B` blocks, serving blocks
/// `0 .. B` in order completes the transfer; `B` is the image size divided
/// by the block size, rounded up.
pub proof fn lemma_serving_all_blocks_completes(
    table: Seq<Option<OtaSession>>,
    cat: Seq<ImageView>,
    node: u8,
    t: u16,
    v: u16,
    now0: u64,
    now: u64,
)
    requires
        table_wf(table),
        catalog_wf(cat),
        first_match(cat, t, v) >= 0,
    ensures
        ({
            let b = block_count(cat[first_match(cat, t, v)]);
            let start = config_step(table, cat, node, t, v, now0).0;
            let end = serve_in_order(start, cat, node, t, v, b, now);
            &&& end[node as int] is Some
            &&& end[node as int]->Some_0.state == OtaState::Completed
            &&& end[node as int]->Some_0.next_expected_block == b
        }),
{
    lemma_first_match(cat, t, v);
    let b = block_count(cat[first_match(cat, t, v)]);
    lemma_serve_prefix(table, cat, node, t, v, b, now, now0);
}

/// A session idle beyond the timeout is removed by expiry; a configuration
/// request after that starts over from block zero, or creates nothing if
/// the catalog has no such image.
pub proof fn lemma_idle_session_restarts(
    table: Seq<Option<OtaSession>>,
    cat: Seq<ImageView>,
    node: u8,
    t: u16,
    v: u16,
    now: u64,
    timeout: u64,
    later: u64,
)
    requires
        table_wf(table),
        table[node as int] is Some,
        idle(table[node as int]->Some_0, now, timeout),
    ensures
        ({
            let expired = expire_step(table, now, timeout);
            let (fresh, reply) = config_step(expired, cat, node, t, v, later);
            &&& expired[node as int] is None
            &&& first_match(cat, t, v) < 0 ==> fresh[node as int] is None && reply
                == ConfigReply::NoUpdate
            &&& first_match(cat, t, v) >= 0 ==> fresh[node as int] is Some
                && fresh[node as int]->Some_0.next_expected_block == 0
                && fresh[node as int]->Some_0.state == OtaState::Streaming
        }),
{
    lemma_first_match(cat, t, v);
}

} // verus!
