//! Discovery engine: the decision logic of the protocol. The engine owns the
//! peer registry and decides, for every inbound datagram and every timer
//! tick, what changes and what must be sent. The caller performs the actual
//! socket work — joining groups, sending, receiving, sleeping — and hands the
//! engine plain values: received bytes, the clock, the local address list.

use vstd::prelude::*;

use crate::codec::AnnouncePacket;
use crate::codec::DecodeError;
use crate::codec::MAX_ADDRS;
use crate::codec::MAX_NAME_LEN;
use crate::codec::PeerAddr;
use crate::codec::copy_bytes;
use crate::codec::decode;
use crate::codec::spec_decode;
use crate::codec::valid_addr;
use crate::codec::wf_packet;
use crate::registry::EntryModel;
use crate::registry::PeerEntry;
use crate::registry::PeerRegistry;
use crate::registry::UpsertOutcome;
use crate::registry::has_id;
use crate::registry::lemma_index_of_id;
use crate::registry::lemma_sweep_preserves_absence;
use crate::registry::lemma_upsert_preserves_absence;
use crate::registry::spec_expired_ids;
use crate::registry::spec_kept;
use crate::registry::spec_upsert;
use crate::registry::wf_registry;

verus! {

/// Lifecycle of one engine instance.
#[derive(Clone, Copy, PartialEq, Eq, Structural, Debug)]
pub enum EngineState {
    /// Not started, or shut down completely.
    Stopped,
    /// Transport is being brought up.
    Starting,
    /// Announcing, receiving and sweeping.
    Running,
    /// Shutdown requested; in-flight work is draining.
    Stopping,
}

/// This process's own identity, fixed for the engine's lifetime.
pub struct DeviceIdentity {
    /// The 128-bit device id, as sixteen bytes.
    pub device_id: Vec<u8>,
    /// The display name announced to peers, as UTF-8 bytes.
    pub device_name: Vec<u8>,
}

/// A valid identity: a full-length id and a name the codec can carry.
pub open spec fn wf_identity(id: Seq<u8>, name: Seq<u8>) -> bool {
    id.len() == 16 && name.len() <= MAX_NAME_LEN
}

/// The resolved configuration handed to the engine at construction. All
/// precedence rules between configuration sources are settled before this
/// value exists.
pub struct EngineConfig {
    /// Application port announced to peers.
    pub port: u16,
    /// IPv4 multicast group to join (four octets).
    pub multicast_ipv4: PeerAddr,
    /// IPv6 multicast group to join (sixteen octets).
    pub multicast_ipv6: PeerAddr,
    /// Seconds between periodic self-announcements.
    pub announce_interval: u64,
    /// Seconds between liveness sweeps; coarser than the announce interval.
    pub sweep_interval: u64,
    /// A peer unseen for longer than this many seconds is evicted.
    pub expiry_threshold: u64,
    /// Least spacing between out-of-cycle re-announcements, to bound
    /// amplification when many peers request retransmission at once.
    pub min_reannounce_spacing: u64,
}

/// A configuration whose multicast groups are of the right families.
pub open spec fn wf_config(c: EngineConfig) -> bool {
    c.multicast_ipv4@.len() == 4 && c.multicast_ipv6@.len() == 16
}

/// Why an engine could not start.
#[derive(Clone, Copy, PartialEq, Eq, Structural, Debug)]
pub enum StartError {
    /// Neither the IPv4 nor the IPv6 group could be joined; the engine
    /// cannot function without at least one address family.
    NoAddressFamily,
}

/// What the engine decided about one inbound datagram.
pub enum PacketOutcome {
    /// The datagram is not a packet of this protocol; it was dropped with
    /// no other effect.
    DecodeFailed(DecodeError),
    /// The engine is not running; the packet was dropped unprocessed.
    NotRunning,
    /// The packet carries this engine's own id (multicast loopback); it was
    /// dropped and the registry left untouched.
    OwnPacket,
    /// The sender asked every listener to re-announce. `announce_now` says
    /// whether the minimum re-announce spacing permits answering already.
    RetransmitRequested { announce_now: bool },
    /// A peer with this previously unseen id was registered.
    PeerJoined(Vec<u8>),
    /// The entry of this already-known peer was merged with the packet.
    PeerUpdated(Vec<u8>),
}

/// Mathematical model of an engine.
#[verifier::ext_equal]
pub ghost struct EngineModel {
    pub device_id: Seq<u8>,
    pub device_name: Seq<u8>,
    pub port: u16,
    pub state: EngineState,
    pub registry: Seq<EntryModel>,
    pub has_announced: bool,
    pub last_announce: u64,
    pub announce_interval: u64,
    pub expiry_threshold: u64,
    pub min_reannounce_spacing: u64,
}

/// A sound engine: a valid identity, a well-formed registry, and — self
/// exclusion — its own id never among its peers.
pub open spec fn wf_engine(m: EngineModel) -> bool {
    &&& wf_identity(m.device_id, m.device_name)
    &&& wf_registry(m.registry)
    &&& !has_id(m.registry, m.device_id)
}

/// The parts of an engine that no packet or sweep may change: everything
/// but the registry and the announce bookkeeping.
pub open spec fn same_engine_statics(a: EngineModel, b: EngineModel) -> bool {
    &&& a.device_id == b.device_id
    &&& a.device_name == b.device_name
    &&& a.port == b.port
    &&& a.announce_interval == b.announce_interval
    &&& a.expiry_threshold == b.expiry_threshold
    &&& a.min_reannounce_spacing == b.min_reannounce_spacing
}

/// Whether an out-of-cycle re-announcement is allowed at `now`: always
/// before the first announcement, afterwards only once the minimum spacing
/// has passed.
pub open spec fn reannounce_allowed(m: EngineModel, now: u64) -> bool {
    !m.has_announced || m.last_announce + m.min_reannounce_spacing <= now
}

/// Whether the periodic announce timer is due at `now`.
pub open spec fn announce_due_at(m: EngineModel, now: u64) -> bool {
    !m.has_announced || m.last_announce + m.announce_interval <= now
}

/// The discovery engine of one running instance.
pub struct Engine {
    identity: DeviceIdentity,
    port: u16,
    state: EngineState,
    registry: PeerRegistry,
    has_announced: bool,
    last_announce: u64,
    announce_interval: u64,
    expiry_threshold: u64,
    min_reannounce_spacing: u64,
}

impl View for Engine {
    type V = EngineModel;

    closed spec fn view(&self) -> EngineModel {
        EngineModel {
            device_id: self.identity.device_id@,
            device_name: self.identity.device_name@,
            port: self.port,
            state: self.state,
            registry: self.registry@,
            has_announced: self.has_announced,
            last_announce: self.last_announce,
            announce_interval: self.announce_interval,
            expiry_threshold: self.expiry_threshold,
            min_reannounce_spacing: self.min_reannounce_spacing,
        }
    }
}

impl Engine {
    /// Starts an engine: one successfully joined address family suffices,
    /// both failing is fatal. A started engine runs with an empty registry
    /// and has not yet announced itself.
    pub fn start(identity: DeviceIdentity, config: EngineConfig, ipv4_joined: bool, ipv6_joined: bool) -> (r:
        Result<Engine, StartError>)
        requires
            wf_identity(identity.device_id@, identity.device_name@),
            wf_config(config),
        ensures
            match r {
                Ok(e) => {
                    &&& ipv4_joined || ipv6_joined
                    &&& e@.state == EngineState::Running
                    &&& e@.registry == Seq::<EntryModel>::empty()
                    &&& e@.device_id == identity.device_id@
                    &&& e@.device_name == identity.device_name@
                    &&& e@.port == config.port
                    &&& !e@.has_announced
                    &&& e@.announce_interval == config.announce_interval
                    &&& e@.expiry_threshold == config.expiry_threshold
                    &&& e@.min_reannounce_spacing == config.min_reannounce_spacing
                    &&& wf_engine(e@)
                },
                Err(err) => !ipv4_joined && !ipv6_joined && err == StartError::NoAddressFamily,
            },
    {
        let mut engine = Engine {
            identity,
            port: config.port,
            state: EngineState::Starting,
            registry: PeerRegistry::new(),
            has_announced: false,
            last_announce: 0,
            announce_interval: config.announce_interval,
            expiry_threshold: config.expiry_threshold,
            min_reannounce_spacing: config.min_reannounce_spacing,
        };
        if !ipv4_joined && !ipv6_joined {
            return Err(StartError::NoAddressFamily);
        }
        engine.state = EngineState::Running;
        proof {
            lemma_index_of_id(engine@.registry, engine@.device_id);
        }
        Ok(engine)
    }

    /// The engine's lifecycle state.
    pub fn state(&self) -> (r: EngineState)
        ensures
            r == self@.state,
    {
        self.state
    }

    /// How many peers are currently registered.
    pub fn peer_count(&self) -> (r: usize)
        ensures
            r == self@.registry.len(),
    {
        self.registry.peer_count()
    }

    /// A read-only snapshot of the peer table, in insertion order. The
    /// copies never alias the live table.
    pub fn peers(&self) -> (r: Vec<PeerEntry>)
        ensures
            r@.map_values(|e: PeerEntry| e@) == self@.registry,
    {
        self.registry.snapshot()
    }

    /// Builds this engine's announcement packet and records the send time.
    /// The address list is enumerated by the caller at send time, so that
    /// interfaces that came or went since the last cycle are reflected.
    pub fn make_announcement(&mut self, addresses: Vec<PeerAddr>, retransmit: bool, now: u64) -> (p:
        AnnouncePacket)
        requires
            wf_engine(old(self)@),
            old(self)@.state == EngineState::Running,
            forall|i: int| 0 <= i < addresses@.len() ==> valid_addr((#[trigger] addresses@[i])@),
            addresses@.len() <= MAX_ADDRS,
        ensures
            wf_packet(p@),
            p@.device_id == old(self)@.device_id,
            p@.device_name == old(self)@.device_name,
            p@.port == old(self)@.port,
            p@.retransmit == retransmit,
            p@.addresses == addresses@.map_values(|a: PeerAddr| a@),
            same_engine_statics(final(self)@, old(self)@),
            final(self)@.state == old(self)@.state,
            final(self)@.registry == old(self)@.registry,
            final(self)@.has_announced,
            final(self)@.last_announce == now,
            wf_engine(final(self)@),
    {
        self.has_announced = true;
        self.last_announce = now;
        let p = AnnouncePacket {
            device_id: copy_bytes(&self.identity.device_id),
            device_name: copy_bytes(&self.identity.device_name),
            retransmit,
            port: self.port,
            addresses,
        };
        assert(forall|i: int|
            0 <= i < p@.addresses.len() ==> valid_addr(#[trigger] p@.addresses[i]));
        p
    }

    /// Periodic announce timer: when running and due, yields the packet to
    /// send this cycle and records the send; otherwise does nothing.
    pub fn announce_tick(&mut self, addresses: Vec<PeerAddr>, now: u64) -> (r: Option<
        AnnouncePacket,
    >)
        requires
            wf_engine(old(self)@),
            forall|i: int| 0 <= i < addresses@.len() ==> valid_addr((#[trigger] addresses@[i])@),
            addresses@.len() <= MAX_ADDRS,
        ensures
            wf_engine(final(self)@),
            same_engine_statics(final(self)@, old(self)@),
            final(self)@.state == old(self)@.state,
            final(self)@.registry == old(self)@.registry,
            match r {
                Some(p) => {
                    &&& old(self)@.state == EngineState::Running
                    &&& announce_due_at(old(self)@, now)
                    &&& wf_packet(p@)
                    &&& p@.device_id == old(self)@.device_id
                    &&& p@.device_name == old(self)@.device_name
                    &&& p@.port == old(self)@.port
                    &&& !p@.retransmit
                    &&& p@.addresses == addresses@.map_values(|a: PeerAddr| a@)
                    &&& final(self)@.has_announced
                    &&& final(self)@.last_announce == now
                },
                None => {
                    &&& !(old(self)@.state == EngineState::Running && announce_due_at(
                        old(self)@,
                        now,
                    ))
                    &&& final(self)@ == old(self)@
                },
            },
    {
        if !matches!(self.state, EngineState::Running) {
            return None;
        }
        if !self.has_announced || (self.last_announce <= u64::MAX - self.announce_interval
            && self.last_announce + self.announce_interval <= now) {
            Some(self.make_announcement(addresses, false, now))
        } else {
            None
        }
    }

    /// Broadcast a request that every peer re-announce itself sooner than
    /// its periodic cycle: an announcement with the retransmit flag set.
    pub fn request_retransmit(&mut self, addresses: Vec<PeerAddr>, now: u64) -> (p:
        AnnouncePacket)
        requires
            wf_engine(old(self)@),
            old(self)@.state == EngineState::Running,
            forall|i: int| 0 <= i < addresses@.len() ==> valid_addr((#[trigger] addresses@[i])@),
            addresses@.len() <= MAX_ADDRS,
        ensures
            wf_engine(final(self)@),
            same_engine_statics(final(self)@, old(self)@),
            final(self)@.state == old(self)@.state,
            final(self)@.registry == old(self)@.registry,
            final(self)@.has_announced && final(self)@.last_announce == now,
            wf_packet(p@),
            p@.device_id == old(self)@.device_id,
            p@.device_name == old(self)@.device_name,
            p@.port == old(self)@.port,
            p@.retransmit,
            p@.addresses == addresses@.map_values(|a: PeerAddr| a@),
    {
        self.make_announcement(addresses, true, now)
    }

    /// Handles one decoded announcement observed at `now`: discards it when
    /// not running; discards this engine's own loopback packets; answers a
    /// retransmit request without registering the sender; and otherwise
    /// merges the sender into the registry.
    pub fn handle_packet(&mut self, pkt: &AnnouncePacket, now: u64) -> (r: PacketOutcome)
        requires
            wf_engine(old(self)@),
            wf_packet(pkt@),
        ensures
            wf_engine(final(self)@),
            same_engine_statics(final(self)@, old(self)@),
            final(self)@.state == old(self)@.state,
            final(self)@.has_announced == old(self)@.has_announced,
            final(self)@.last_announce == old(self)@.last_announce,
            old(self)@.state != EngineState::Running ==> final(self)@ == old(self)@ && (
            r matches PacketOutcome::NotRunning),
            old(self)@.state == EngineState::Running && pkt@.device_id == old(self)@.device_id
                ==> final(self)@ == old(self)@ && (r matches PacketOutcome::OwnPacket),
            old(self)@.state == EngineState::Running && pkt@.device_id != old(self)@.device_id
                && pkt@.retransmit ==> final(self)@ == old(self)@ && (
            r matches PacketOutcome::RetransmitRequested { announce_now } && announce_now
                == reannounce_allowed(old(self)@, now)),
            old(self)@.state == EngineState::Running && pkt@.device_id != old(self)@.device_id
                && !pkt@.retransmit ==> {
                &&& final(self)@.registry == spec_upsert(
                    old(self)@.registry,
                    pkt@.device_id,
                    pkt@.device_name,
                    pkt@.port,
                    pkt@.addresses,
                    now,
                )
                &&& (!has_id(old(self)@.registry, pkt@.device_id) ==> (
                r matches PacketOutcome::PeerJoined(id) && id@ == pkt@.device_id))
                &&& (has_id(old(self)@.registry, pkt@.device_id) ==> (
                r matches PacketOutcome::PeerUpdated(id) && id@ == pkt@.device_id))
            },
    {
        if !matches!(self.state, EngineState::Running) {
            return PacketOutcome::NotRunning;
        }
        if crate::registry::bytes_eq(&pkt.device_id, &self.identity.device_id) {
            return PacketOutcome::OwnPacket;
        }
        if pkt.retransmit {
            let announce_now: bool = !self.has_announced || (self.last_announce <= u64::MAX
                - self.min_reannounce_spacing && self.last_announce + self.min_reannounce_spacing
                <= now);
            assert(announce_now == reannounce_allowed(self@, now));
            return PacketOutcome::RetransmitRequested { announce_now };
        }
        let ghost s = self@.registry;
        let ghost me = self@.device_id;
        assert forall|i: int| 0 <= i < pkt.addresses@.len() implies valid_addr(
            (#[trigger] pkt.addresses@[i])@,
        ) by {
            assert(pkt@.addresses[i] == pkt.addresses@[i]@);
            assert(valid_addr(pkt@.addresses[i]));
        }
        let outcome = self.registry.upsert(
            &pkt.device_id,
            &pkt.device_name,
            pkt.port,
            &pkt.addresses,
            now,
        );
        proof {
            lemma_upsert_preserves_absence(
                s,
                pkt@.device_id,
                pkt@.device_name,
                pkt@.port,
                pkt@.addresses,
                now,
                me,
            );
        }
        let id_copy = copy_bytes(&pkt.device_id);
        match outcome {
            UpsertOutcome::Joined => PacketOutcome::PeerJoined(id_copy),
            UpsertOutcome::Updated => PacketOutcome::PeerUpdated(id_copy),
        }
    }

    /// Handles one raw datagram: decodes it and, on success, processes the
    /// packet. A datagram that does not decode — foreign magic, unsupported
    /// version, truncation, malformation — changes nothing at all.
    pub fn handle_datagram(&mut self, bytes: &Vec<u8>, now: u64) -> (r: PacketOutcome)
        requires
            wf_engine(old(self)@),
        ensures
            wf_engine(final(self)@),
            same_engine_statics(final(self)@, old(self)@),
            final(self)@.state == old(self)@.state,
            spec_decode(bytes@) matches Err(e) ==> final(self)@ == old(self)@ && (
            r matches PacketOutcome::DecodeFailed(e2) && e2 == e),
            spec_decode(bytes@) matches Ok(m) ==> {
                &&& old(self)@.state != EngineState::Running ==> final(self)@ == old(self)@ && (
                r matches PacketOutcome::NotRunning)
                &&& old(self)@.state == EngineState::Running && m.device_id
                    == old(self)@.device_id ==> final(self)@ == old(self)@ && (
                r matches PacketOutcome::OwnPacket)
                &&& old(self)@.state == EngineState::Running && m.device_id
                    != old(self)@.device_id && m.retransmit ==> final(self)@ == old(self)@ && (
                r matches PacketOutcome::RetransmitRequested { announce_now } && announce_now
                    == reannounce_allowed(old(self)@, now))
                &&& old(self)@.state == EngineState::Running && m.device_id
                    != old(self)@.device_id && !m.retransmit ==> {
                    &&& final(self)@.registry == spec_upsert(
                        old(self)@.registry,
                        m.device_id,
                        m.device_name,
                        m.port,
                        m.addresses,
                        now,
                    )
                    &&& final(self)@.has_announced == old(self)@.has_announced
                    &&& final(self)@.last_announce == old(self)@.last_announce
                    &&& (!has_id(old(self)@.registry, m.device_id) ==> (
                    r matches PacketOutcome::PeerJoined(id) && id@ == m.device_id))
                    &&& (has_id(old(self)@.registry, m.device_id) ==> (
                    r matches PacketOutcome::PeerUpdated(id) && id@ == m.device_id))
                }
            },
    {
        match decode(bytes) {
            Ok(pkt) => self.handle_packet(&pkt, now),
            Err(e) => PacketOutcome::DecodeFailed(e),
        }
    }

    /// Liveness sweep: when running, evicts every peer whose `last_seen`
    /// lies more than the expiry threshold before `now` and reports the
    /// evicted ids, oldest-registered first; otherwise does nothing.
    pub fn sweep_tick(&mut self, now: u64) -> (r: Vec<Vec<u8>>)
        requires
            wf_engine(old(self)@),
        ensures
            wf_engine(final(self)@),
            same_engine_statics(final(self)@, old(self)@),
            final(self)@.state == old(self)@.state,
            final(self)@.has_announced == old(self)@.has_announced,
            final(self)@.last_announce == old(self)@.last_announce,
            old(self)@.state == EngineState::Running ==> {
                &&& final(self)@.registry == spec_kept(
                    old(self)@.registry,
                    now,
                    old(self)@.expiry_threshold,
                )
                &&& r@.map_values(|x: Vec<u8>| x@) == spec_expired_ids(
                    old(self)@.registry,
                    now,
                    old(self)@.expiry_threshold,
                )
            },
            old(self)@.state != EngineState::Running ==> final(self)@ == old(self)@ && r@.len()
                == 0,
    {
        if !matches!(self.state, EngineState::Running) {
            return Vec::new();
        }
        let ghost s = self@.registry;
        let ghost me = self@.device_id;
        let ghost threshold = self@.expiry_threshold;
        let removed = self.registry.remove_expired(now, self.expiry_threshold);
        proof {
            lemma_sweep_preserves_absence(s, me, now, threshold);
        }
        removed
    }

    /// Requests shutdown: a running engine begins stopping; any other state
    /// is left as it is. No registry mutation happens here or later.
    pub fn stop(&mut self)
        requires
            wf_engine(old(self)@),
        ensures
            wf_engine(final(self)@),
            same_engine_statics(final(self)@, old(self)@),
            final(self)@.registry == old(self)@.registry,
            final(self)@.has_announced == old(self)@.has_announced,
            final(self)@.last_announce == old(self)@.last_announce,
            old(self)@.state == EngineState::Running ==> final(self)@.state
                == EngineState::Stopping,
            old(self)@.state != EngineState::Running ==> final(self)@ == old(self)@,
    {
        if matches!(self.state, EngineState::Running) {
            self.state = EngineState::Stopping;
        }
    }

    /// Confirms that in-flight sends and receives have drained and the
    /// groups are left: a stopping engine becomes stopped.
    pub fn confirm_stopped(&mut self)
        requires
            wf_engine(old(self)@),
        ensures
            wf_engine(final(self)@),
            same_engine_statics(final(self)@, old(self)@),
            final(self)@.registry == old(self)@.registry,
            old(self)@.state == EngineState::Stopping ==> final(self)@.state
                == EngineState::Stopped,
            old(self)@.state != EngineState::Stopping ==> final(self)@ == old(self)@,
    {
        if matches!(self.state, EngineState::Stopping) {
            self.state = EngineState::Stopped;
        }
    }
}

} // verus!
