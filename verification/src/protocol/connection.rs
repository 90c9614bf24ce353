//! The decisions of the tasks that run a connection to a peer: reading
//! frames from a buffer, writing them, dispatching received messages and
//! keeping the connection alive with pings.
use vstd::prelude::*;

use crate::protocol::message::{
    lemma_frame_roundtrip, spec_body_decode, spec_check_size, spec_frame, spec_parse, FrameError, TypedMessage,
};
use crate::protocol::DeviceId;
use crate::protos::bep::MessageType;

verus! {

/// The state of a connection, as seen by the dispatcher.
#[derive(Debug, Clone, Copy, PartialEq, Eq)]
pub enum ConnectionState {
    /// No `ClusterConfig` received yet.
    Initial,
    /// The peer sent its `ClusterConfig`.
    Ready,
}

/// What the model is told about a received message.
#[derive(Debug, Clone, Copy, PartialEq, Eq)]
pub enum ModelUpdate {
    /// The peer with this id sent a `ClusterConfig`.
    ClusterConfig(DeviceId),
    /// The peer with this id sent an `Index`.
    Index(DeviceId),
    /// Nothing to do.
    Nothing,
}

/// Handles messages from the reader.
pub struct ConnectionDispatcher {
    pub id: DeviceId,
    pub state: ConnectionState,
}

impl ConnectionDispatcher {
    /// The dispatcher of a new connection to `remote_id`.
    pub fn new(remote_id: DeviceId) -> (res: ConnectionDispatcher)
        ensures
            res.id == remote_id,
            res.state == ConnectionState::Initial,
    {
        ConnectionDispatcher { id: remote_id, state: ConnectionState::Initial }
    }

    /// Handles a received message: a `ClusterConfig` makes the connection
    /// ready and is handed to the model, as is an `Index`; other messages
    /// are dropped.
    pub fn dispatch(&mut self, message: &TypedMessage) -> (res: ModelUpdate)
        ensures
            final(self).id == old(self).id,
            final(self).state == spec_next_state(old(self).state, message@.0),
            res == spec_model_update(old(self).id, message@.0),
    {
        match message {
            TypedMessage::ClusterConfig(_) => {
                self.state = ConnectionState::Ready;
                ModelUpdate::ClusterConfig(self.id)
            },
            TypedMessage::Index(_) => ModelUpdate::Index(self.id),
            TypedMessage::IndexUpdate(_) => ModelUpdate::Nothing,
            TypedMessage::Request(_) => ModelUpdate::Nothing,
            TypedMessage::Response(_) => ModelUpdate::Nothing,
            TypedMessage::DownloadProgress(_) => ModelUpdate::Nothing,
            TypedMessage::Ping(_) => ModelUpdate::Nothing,
            TypedMessage::Close(_) => ModelUpdate::Nothing,
        }
    }
}

/// The state after receiving a message of type `kind`.
pub open spec fn spec_next_state(state: ConnectionState, kind: MessageType) -> ConnectionState {
    if kind == MessageType::ClusterConfig {
        ConnectionState::Ready
    } else {
        state
    }
}

/// What the model is told about a message of type `kind` from `id`.
pub open spec fn spec_model_update(id: DeviceId, kind: MessageType) -> ModelUpdate {
    if kind == MessageType::ClusterConfig {
        ModelUpdate::ClusterConfig(id)
    } else if kind == MessageType::Index {
        ModelUpdate::Index(id)
    } else {
        ModelUpdate::Nothing
    }
}

/// Only a `ClusterConfig` and an `Index` reach the model, each with the id of
/// the peer that sent it; every other message type is dropped.
pub proof fn lemma_model_updates(id: DeviceId, kind: MessageType)
    ensures
        (spec_model_update(id, kind) == ModelUpdate::Nothing) <==> (kind != MessageType::ClusterConfig
            && kind != MessageType::Index),
        spec_model_update(id, kind) == ModelUpdate::ClusterConfig(id) <==> kind
            == MessageType::ClusterConfig,
        spec_model_update(id, kind) == ModelUpdate::Index(id) <==> kind == MessageType::Index,
        forall|x: DeviceId| #[trigger] spec_model_update(id, kind) == ModelUpdate::Index(x) ==> x == id,
        forall|x: DeviceId| #[trigger] spec_model_update(id, kind) == ModelUpdate::ClusterConfig(x) ==> x
            == id,
        kind == MessageType::IndexUpdate ==> spec_model_update(id, kind) == ModelUpdate::Nothing,
{
}

/// A connection is ready exactly when one of the messages received so far is
/// a `ClusterConfig`; in particular, once ready it stays ready.
pub proof fn lemma_ready_after(kinds: Seq<MessageType>)
    ensures
        spec_state_after(kinds) == ConnectionState::Ready <==> kinds.contains(
            MessageType::ClusterConfig,
        ),
    decreases kinds.len(),
{
    if kinds.len() > 0 {
        lemma_ready_after(kinds.drop_last());
        if kinds.drop_last().contains(MessageType::ClusterConfig) {
            let i = choose|i: int| 0 <= i < kinds.drop_last().len() && kinds.drop_last()[i] == MessageType::ClusterConfig;
            assert(kinds[i] == MessageType::ClusterConfig);
        }
        if kinds.contains(MessageType::ClusterConfig) {
            let i = choose|i: int| 0 <= i < kinds.len() && kinds[i] == MessageType::ClusterConfig;
            if i < kinds.len() - 1 {
                assert(kinds.drop_last()[i] == MessageType::ClusterConfig);
            }
        }
        if kinds.last() == MessageType::ClusterConfig {
            assert(kinds[kinds.len() - 1] == MessageType::ClusterConfig);
        }
    }
}

/// The state of a new connection after receiving messages of the types `kinds`.
pub open spec fn spec_state_after(kinds: Seq<MessageType>) -> ConnectionState
    decreases kinds.len(),
{
    if kinds.len() == 0 {
        ConnectionState::Initial
    } else {
        spec_next_state(spec_state_after(kinds.drop_last()), kinds.last())
    }
}

/// How long without a message sent or received before pings matter, in
/// milliseconds: 90 seconds.
pub const PING_DURATION_MS: u64 = 90_000;

/// Sends a `Ping` when nothing was sent for a while.
pub struct ConnectionPingSender {
    pub send_duration_ms: u64,
}

impl ConnectionPingSender {
    /// A sender that pings after 90 seconds without a message sent.
    pub fn new() -> (res: ConnectionPingSender)
        ensures
            res.send_duration_ms == PING_DURATION_MS,
    {
        ConnectionPingSender { send_duration_ms: PING_DURATION_MS }
    }

    /// How often the clock is checked: half the duration.
    pub fn interval_ms(&self) -> (res: u64)
        ensures
            res == self.send_duration_ms / 2,
    {
        self.send_duration_ms / 2
    }

    /// At a tick of the clock, whether to send a `Ping`: a tick that is not
    /// after the last message sent is ignored, otherwise a `Ping` is due once
    /// the duration has passed since that message. Times are in milliseconds.
    pub fn ping_due(&self, tick_ms: u64, last_sent_ms: u64) -> (res: bool)
        ensures
            res == (tick_ms > last_sent_ms && tick_ms - last_sent_ms >= self.send_duration_ms),
    {
        if tick_ms <= last_sent_ms {
            return false;
        }
        tick_ms - last_sent_ms >= self.send_duration_ms
    }

    /// The `Ping` message: an empty body.
    pub fn ping_msg(&self) -> (res: TypedMessage)
        ensures
            res@ == (MessageType::Ping, Seq::<u8>::empty()),
    {
        TypedMessage::Ping(Vec::new())
    }
}

/// Watches for a connection on which nothing was received for a while.
pub struct ConnectionPingReceiver {
    pub receive_duration_ms: u64,
}

impl ConnectionPingReceiver {
    /// A receiver that complains after 90 seconds without a message received.
    pub fn new() -> (res: ConnectionPingReceiver)
        ensures
            res.receive_duration_ms == PING_DURATION_MS,
    {
        ConnectionPingReceiver { receive_duration_ms: PING_DURATION_MS }
    }

    /// How often the clock is checked: half the duration.
    pub fn interval_ms(&self) -> (res: u64)
        ensures
            res == self.receive_duration_ms / 2,
    {
        self.receive_duration_ms / 2
    }

    /// At a tick of the clock, whether the duration has passed since the last
    /// message received; a tick before that message counts as no time.
    pub fn timed_out(&self, tick_ms: u64, last_received_ms: u64) -> (res: bool)
        ensures
            res == ((if tick_ms > last_received_ms {
                tick_ms - last_received_ms
            } else {
                0
            }) >= self.receive_duration_ms),
    {
        let elapsed = if tick_ms > last_received_ms {
            tick_ms - last_received_ms
        } else {
            0
        };
        elapsed >= self.receive_duration_ms
    }
}

/// Why reading from a connection stopped.
#[derive(Debug, Clone, Copy, PartialEq, Eq)]
pub enum ReadError {
    /// A frame could not be read.
    InvalidFrame(FrameError),
    /// The peer closed the connection in the middle of a frame.
    ConnectionReset,
}

/// Takes the frame at the start of `buffer` out of it, if the buffer holds a
/// whole frame: `Ok(None)` and the buffer untouched when it does not; the
/// message, or why the frame is invalid, otherwise.
pub fn parse_message(buffer: &mut Vec<u8>) -> (res: Result<Option<TypedMessage>, FrameError>)
    ensures
        !spec_check_size(old(buffer)@) ==> res == Ok::<Option<TypedMessage>, FrameError>(None)
            && final(buffer)@ == old(buffer)@,
        spec_check_size(old(buffer)@) ==> {
            let (used, parsed) = spec_parse(old(buffer)@);
            &&& final(buffer)@ == old(buffer)@.skip(used as int)
            &&& match parsed {
                Ok(m) => res matches Ok(Some(msg)) && msg@ == m,
                Err(e) => res == Err::<Option<TypedMessage>, FrameError>(e),
            }
        },
{
    if !TypedMessage::check_size(buffer.as_slice()) {
        return Ok(None);
    }
    let (used, parsed) = TypedMessage::parse(buffer.as_slice());
    let rest = crate::protos::wire::copy_bytes(&buffer.as_slice()[used..buffer.len()]);
    *buffer = rest;
    match parsed {
        Ok(msg) => Ok(Some(msg)),
        Err(e) => Err(e),
    }
}

/// What reaching the end of the connection means: a clean close when no
/// data is left over, a reset in the middle of a frame otherwise.
pub fn on_eof(buffer: &[u8]) -> (res: Result<Option<TypedMessage>, ReadError>)
    ensures
        buffer@.len() == 0 ==> res == Ok::<Option<TypedMessage>, ReadError>(None),
        buffer@.len() != 0 ==> res == Err::<Option<TypedMessage>, ReadError>(
            ReadError::ConnectionReset,
        ),
{
    if buffer.len() == 0 {
        Ok(None)
    } else {
        Err(ReadError::ConnectionReset)
    }
}

/// The frames of the messages `ms`, one after the other.
pub open spec fn spec_frames(ms: Seq<(MessageType, Seq<u8>)>) -> Seq<u8>
    decreases ms.len(),
{
    if ms.len() == 0 {
        Seq::empty()
    } else {
        spec_frame(ms[0]) + spec_frames(ms.drop_first())
    }
}

/// A stream of frames written by the writer reads back, frame by frame, as
/// the messages in the order they were written: from the start of the
/// frames of the messages not read yet, the reader finds a whole frame,
/// reads the next message, and leaves exactly the frames of the messages
/// after it; once every message is read nothing is left. The bodies are ones
/// that decoding keeps as they are; bodies of 2^32 bytes or more are
/// excluded, as their length does not fit a frame.
pub proof fn lemma_stream_roundtrip(ms: Seq<(MessageType, Seq<u8>)>, i: int)
    requires
        forall|j: int| 0 <= j < ms.len() ==> #[trigger] ms[j].1.len() <= u32::MAX,
        forall|j: int| 0 <= j < ms.len() ==> spec_body_decode(#[trigger] ms[j].0, ms[j].1) == Some(ms[j].1),
        0 <= i < ms.len(),
    ensures
        spec_check_size(spec_frames(ms.skip(i))),
        spec_parse(spec_frames(ms.skip(i))) == (spec_frame(ms[i]).len(), Ok::<(MessageType, Seq<u8>), FrameError>(ms[i])),
        spec_frames(ms.skip(i)).skip(spec_frame(ms[i]).len() as int) == spec_frames(ms.skip(i + 1)),
        spec_frames(ms.skip(ms.len() as int)).len() == 0,
{
    let tail = ms.skip(i);
    assert(tail[0] == ms[i]);
    assert(tail.drop_first() =~= ms.skip(i + 1));
    lemma_frame_roundtrip(ms[i], spec_frames(ms.skip(i + 1)));
    assert((spec_frame(ms[i]) + spec_frames(ms.skip(i + 1))).skip(spec_frame(ms[i]).len() as int)
        =~= spec_frames(ms.skip(i + 1)));
    assert(ms.skip(ms.len() as int) =~= Seq::<(MessageType, Seq<u8>)>::empty());
}

/// Replaces the content of `buf` with the frame of `msg`, ready to be written.
pub fn encode_message(buf: &mut Vec<u8>, msg: &TypedMessage)
    ensures
        final(buf)@ == spec_frame(msg@),
{
    buf.clear();
    msg.write_to_bytes(buf);
    assert(buf@ =~= spec_frame(msg@));
}

} // verus!
