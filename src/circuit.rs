//! Circuits: their states, flags, purposes, paths and the record the daemon
//! gives for each in `circuit-status`.
use vstd::prelude::*;
use vstd::string::StringSliceAdditionalSpecFns;

use crate::common::{
    id_valid, lemma_time_parsed_wf, lemma_time_round_trip, time_of, time_text, time_wf, CircuitID,
    Time,
};
use crate::error::Error;
use crate::encoding::{
    ascii_lower, base32_decode, base32_decoded, base32_encode, base32_encoded, is_base32_byte,
    is_upper_base32,
};
use crate::text::{
    all_alnum, all_hex, bytes_of, check_alnum, copy_range, eq_bytes, first_occ, find_from,
    hex_bytes_of, hex_decode, parse_quoted, quoted_of, sep_of,
    skip_crlf, split_bytes, split_on, to_array, hex_encode,
    hex_upper, is_alnum, is_upper_hex, skip_leading_crlf, record_lines, split_records, join_bytes, join_front, lacks, lemma_first_occ_is,
    lemma_hex_upper, lemma_join_lacks, lemma_split_join, occurs_at, push_bytes, to_ascii_lower,
    escaped, lemma_escaped, write_escaped, lemma_split_pieces_lack,
    lemma_unescaped_lacks, lemma_first_occ_range,
};

verus! {

/// State of a circuit.
#[derive(Debug, Clone, Copy, PartialEq, Eq, Structural)]
pub enum CircuitStatus {
    /// Circuit ID assigned to a new circuit.
    Launched,
    /// All hops finished; the circuit can accept streams.
    Built,
    /// All hops finished; waiting to see whether a circuit with a better guard will be usable.
    GuardWait,
    /// One more hop has been completed.
    Extended,
    /// Closed before it was built.
    Failed,
    /// Closed after it was built.
    Closed,
}

impl CircuitStatus {
    /// Its token on the wire.
    pub open spec fn token(self) -> Seq<u8> {
        match self {
            CircuitStatus::Launched => "LAUNCHED".spec_bytes(),
            CircuitStatus::Built => "BUILT".spec_bytes(),
            CircuitStatus::GuardWait => "GUARD_WAIT".spec_bytes(),
            CircuitStatus::Extended => "EXTENDED".spec_bytes(),
            CircuitStatus::Failed => "FAILED".spec_bytes(),
            CircuitStatus::Closed => "CLOSED".spec_bytes(),
        }
    }

    /// The value whose token `w` is.
    pub open spec fn from_token(w: Seq<u8>) -> Option<Self> {
        if w == "LAUNCHED".spec_bytes() {
            Some(CircuitStatus::Launched)
        } else if w == "BUILT".spec_bytes() {
            Some(CircuitStatus::Built)
        } else if w == "GUARD_WAIT".spec_bytes() {
            Some(CircuitStatus::GuardWait)
        } else if w == "EXTENDED".spec_bytes() {
            Some(CircuitStatus::Extended)
        } else if w == "FAILED".spec_bytes() {
            Some(CircuitStatus::Failed)
        } else if w == "CLOSED".spec_bytes() {
            Some(CircuitStatus::Closed)
        } else {
            None
        }
    }

    /// The value whose token is the whole of `w`.
    pub fn parse(w: &[u8]) -> (r: Option<Self>)
        ensures
            r == Self::from_token(w@),
    {
        if eq_bytes(w, "LAUNCHED".as_bytes()) {
            Some(CircuitStatus::Launched)
        } else if eq_bytes(w, "BUILT".as_bytes()) {
            Some(CircuitStatus::Built)
        } else if eq_bytes(w, "GUARD_WAIT".as_bytes()) {
            Some(CircuitStatus::GuardWait)
        } else if eq_bytes(w, "EXTENDED".as_bytes()) {
            Some(CircuitStatus::Extended)
        } else if eq_bytes(w, "FAILED".as_bytes()) {
            Some(CircuitStatus::Failed)
        } else if eq_bytes(w, "CLOSED".as_bytes()) {
            Some(CircuitStatus::Closed)
        } else {
            None
        }
    }

    /// The token of this value.
    pub fn to_text(&self) -> (r: &'static [u8])
        ensures
            r@ == self.token(),
    {
        match self {
            CircuitStatus::Launched => "LAUNCHED".as_bytes(),
            CircuitStatus::Built => "BUILT".as_bytes(),
            CircuitStatus::GuardWait => "GUARD_WAIT".as_bytes(),
            CircuitStatus::Extended => "EXTENDED".as_bytes(),
            CircuitStatus::Failed => "FAILED".as_bytes(),
            CircuitStatus::Closed => "CLOSED".as_bytes(),
        }
    }
}

/// A flag given to a circuit when it was built.
#[derive(Debug, Clone, Copy, PartialEq, Eq, Structural)]
pub enum CircuitBuildFlag {
    /// One-hop circuit, used for tunneled directory connections.
    OneHopTunnel,
    /// Internal circuit, not to be used for exiting streams.
    IsInternal,
    /// Uses only high-capacity nodes.
    NeedCapacity,
    /// Uses only high-uptime nodes.
    NeedUptime,
}

impl CircuitBuildFlag {
    /// Its token on the wire.
    pub open spec fn token(self) -> Seq<u8> {
        match self {
            CircuitBuildFlag::OneHopTunnel => "ONEHOP_TUNNEL".spec_bytes(),
            CircuitBuildFlag::IsInternal => "IS_INTERNAL".spec_bytes(),
            CircuitBuildFlag::NeedCapacity => "NEED_CAPACITY".spec_bytes(),
            CircuitBuildFlag::NeedUptime => "NEED_UPTIME".spec_bytes(),
        }
    }

    /// The value whose token `w` is.
    pub open spec fn from_token(w: Seq<u8>) -> Option<Self> {
        if w == "ONEHOP_TUNNEL".spec_bytes() {
            Some(CircuitBuildFlag::OneHopTunnel)
        } else if w == "IS_INTERNAL".spec_bytes() {
            Some(CircuitBuildFlag::IsInternal)
        } else if w == "NEED_CAPACITY".spec_bytes() {
            Some(CircuitBuildFlag::NeedCapacity)
        } else if w == "NEED_UPTIME".spec_bytes() {
            Some(CircuitBuildFlag::NeedUptime)
        } else {
            None
        }
    }

    /// The value whose token is the whole of `w`.
    pub fn parse(w: &[u8]) -> (r: Option<Self>)
        ensures
            r == Self::from_token(w@),
    {
        if eq_bytes(w, "ONEHOP_TUNNEL".as_bytes()) {
            Some(CircuitBuildFlag::OneHopTunnel)
        } else if eq_bytes(w, "IS_INTERNAL".as_bytes()) {
            Some(CircuitBuildFlag::IsInternal)
        } else if eq_bytes(w, "NEED_CAPACITY".as_bytes()) {
            Some(CircuitBuildFlag::NeedCapacity)
        } else if eq_bytes(w, "NEED_UPTIME".as_bytes()) {
            Some(CircuitBuildFlag::NeedUptime)
        } else {
            None
        }
    }

    /// The token of this value.
    pub fn to_text(&self) -> (r: &'static [u8])
        ensures
            r@ == self.token(),
    {
        match self {
            CircuitBuildFlag::OneHopTunnel => "ONEHOP_TUNNEL".as_bytes(),
            CircuitBuildFlag::IsInternal => "IS_INTERNAL".as_bytes(),
            CircuitBuildFlag::NeedCapacity => "NEED_CAPACITY".as_bytes(),
            CircuitBuildFlag::NeedUptime => "NEED_UPTIME".as_bytes(),
        }
    }
}

/// What a circuit is for.
#[derive(Debug, Clone, Copy, PartialEq, Eq, Structural)]
pub enum CircuitPurpose {
    /// Application and directory request streams.
    General,
    /// Hidden-service client introduction-point circuit.
    HsClientIntro,
    /// Hidden-service client rendezvous circuit.
    HsClientRend,
    /// Hidden-service introduction-point circuit.
    HsServiceIntro,
    /// Hidden-service rendezvous circuit.
    HsServiceRend,
    /// Hidden-service client directory fetch.
    HsClientHsDir,
    /// Reachability test; carries no traffic.
    Testing,
    /// Built by a controller.
    Controller,
    /// Kept around to measure how long it takes.
    MeasureTimeout,
    /// Prebuilt for hidden-service vanguards.
    HsVanguards,
    /// Probes whether circuits are deliberately closed.
    PathBiasTesting,
    /// Held open to disguise its true close time.
    CircuitPadding,
}

impl CircuitPurpose {
    /// Its token on the wire.
    pub open spec fn token(self) -> Seq<u8> {
        match self {
            CircuitPurpose::General => "GENERAL".spec_bytes(),
            CircuitPurpose::HsClientIntro => "HS_CLIENT_INTRO".spec_bytes(),
            CircuitPurpose::HsClientRend => "HS_CLIENT_REND".spec_bytes(),
            CircuitPurpose::HsServiceIntro => "HS_SERVICE_INTRO".spec_bytes(),
            CircuitPurpose::HsServiceRend => "HS_SERVICE_REND".spec_bytes(),
            CircuitPurpose::HsClientHsDir => "HS_CLIENT_HSDIR".spec_bytes(),
            CircuitPurpose::Testing => "TESTING".spec_bytes(),
            CircuitPurpose::Controller => "CONTROLLER".spec_bytes(),
            CircuitPurpose::MeasureTimeout => "MEASURE_TIMEOUT".spec_bytes(),
            CircuitPurpose::HsVanguards => "HS_VANGUARDS".spec_bytes(),
            CircuitPurpose::PathBiasTesting => "PATH_BIAS_TESTING".spec_bytes(),
            CircuitPurpose::CircuitPadding => "CIRCUIT_PADDING".spec_bytes(),
        }
    }

    /// The value whose token `w` is.
    pub open spec fn from_token(w: Seq<u8>) -> Option<Self> {
        if w == "GENERAL".spec_bytes() {
            Some(CircuitPurpose::General)
        } else if w == "HS_CLIENT_INTRO".spec_bytes() {
            Some(CircuitPurpose::HsClientIntro)
        } else if w == "HS_CLIENT_REND".spec_bytes() {
            Some(CircuitPurpose::HsClientRend)
        } else if w == "HS_SERVICE_INTRO".spec_bytes() {
            Some(CircuitPurpose::HsServiceIntro)
        } else if w == "HS_SERVICE_REND".spec_bytes() {
            Some(CircuitPurpose::HsServiceRend)
        } else if w == "HS_CLIENT_HSDIR".spec_bytes() {
            Some(CircuitPurpose::HsClientHsDir)
        } else if w == "TESTING".spec_bytes() {
            Some(CircuitPurpose::Testing)
        } else if w == "CONTROLLER".spec_bytes() {
            Some(CircuitPurpose::Controller)
        } else if w == "MEASURE_TIMEOUT".spec_bytes() {
            Some(CircuitPurpose::MeasureTimeout)
        } else if w == "HS_VANGUARDS".spec_bytes() {
            Some(CircuitPurpose::HsVanguards)
        } else if w == "PATH_BIAS_TESTING".spec_bytes() {
            Some(CircuitPurpose::PathBiasTesting)
        } else if w == "CIRCUIT_PADDING".spec_bytes() {
            Some(CircuitPurpose::CircuitPadding)
        } else {
            None
        }
    }

    /// The value whose token is the whole of `w`.
    pub fn parse(w: &[u8]) -> (r: Option<Self>)
        ensures
            r == Self::from_token(w@),
    {
        if eq_bytes(w, "GENERAL".as_bytes()) {
            Some(CircuitPurpose::General)
        } else if eq_bytes(w, "HS_CLIENT_INTRO".as_bytes()) {
            Some(CircuitPurpose::HsClientIntro)
        } else if eq_bytes(w, "HS_CLIENT_REND".as_bytes()) {
            Some(CircuitPurpose::HsClientRend)
        } else if eq_bytes(w, "HS_SERVICE_INTRO".as_bytes()) {
            Some(CircuitPurpose::HsServiceIntro)
        } else if eq_bytes(w, "HS_SERVICE_REND".as_bytes()) {
            Some(CircuitPurpose::HsServiceRend)
        } else if eq_bytes(w, "HS_CLIENT_HSDIR".as_bytes()) {
            Some(CircuitPurpose::HsClientHsDir)
        } else if eq_bytes(w, "TESTING".as_bytes()) {
            Some(CircuitPurpose::Testing)
        } else if eq_bytes(w, "CONTROLLER".as_bytes()) {
            Some(CircuitPurpose::Controller)
        } else if eq_bytes(w, "MEASURE_TIMEOUT".as_bytes()) {
            Some(CircuitPurpose::MeasureTimeout)
        } else if eq_bytes(w, "HS_VANGUARDS".as_bytes()) {
            Some(CircuitPurpose::HsVanguards)
        } else if eq_bytes(w, "PATH_BIAS_TESTING".as_bytes()) {
            Some(CircuitPurpose::PathBiasTesting)
        } else if eq_bytes(w, "CIRCUIT_PADDING".as_bytes()) {
            Some(CircuitPurpose::CircuitPadding)
        } else {
            None
        }
    }

    /// The token of this value.
    pub fn to_text(&self) -> (r: &'static [u8])
        ensures
            r@ == self.token(),
    {
        match self {
            CircuitPurpose::General => "GENERAL".as_bytes(),
            CircuitPurpose::HsClientIntro => "HS_CLIENT_INTRO".as_bytes(),
            CircuitPurpose::HsClientRend => "HS_CLIENT_REND".as_bytes(),
            CircuitPurpose::HsServiceIntro => "HS_SERVICE_INTRO".as_bytes(),
            CircuitPurpose::HsServiceRend => "HS_SERVICE_REND".as_bytes(),
            CircuitPurpose::HsClientHsDir => "HS_CLIENT_HSDIR".as_bytes(),
            CircuitPurpose::Testing => "TESTING".as_bytes(),
            CircuitPurpose::Controller => "CONTROLLER".as_bytes(),
            CircuitPurpose::MeasureTimeout => "MEASURE_TIMEOUT".as_bytes(),
            CircuitPurpose::HsVanguards => "HS_VANGUARDS".as_bytes(),
            CircuitPurpose::PathBiasTesting => "PATH_BIAS_TESTING".as_bytes(),
            CircuitPurpose::CircuitPadding => "CIRCUIT_PADDING".as_bytes(),
        }
    }
}

/// Hidden-service state of a circuit.
#[derive(Debug, Clone, Copy, PartialEq, Eq, Structural)]
pub enum HsState {
    /// Client intro point: connecting.
    HSCIConnecting,
    /// Client intro point: INTRODUCE1 sent, waiting for reply.
    HSCIIntroSent,
    /// Client intro point: reply received; closing.
    HSCIDone,
    /// Client rendezvous point: connecting or waiting for reply.
    HSCRConnecting,
    /// Client rendezvous point: established, waiting for introduction.
    HSCREstablishedIdle,
    /// Client rendezvous point: introduction sent, waiting for rendezvous.
    HSCREstablishedWaiting,
    /// Client rendezvous point: connected to the service.
    HSCRJoined,
    /// Service intro point: connecting.
    HSSIConnecting,
    /// Service intro point: established.
    HSSIEstablished,
    /// Service rendezvous point: connecting to the client's point.
    HSSRConnecting,
    /// Service rendezvous point: connected.
    HSSRJoined,
}

impl HsState {
    /// Its token on the wire.
    pub open spec fn token(self) -> Seq<u8> {
        match self {
            HsState::HSCIConnecting => "HSCI_CONNECTING".spec_bytes(),
            HsState::HSCIIntroSent => "HSCI_INTROSENT".spec_bytes(),
            HsState::HSCIDone => "HSCI_DONE".spec_bytes(),
            HsState::HSCRConnecting => "HSCR_CONNECTING".spec_bytes(),
            HsState::HSCREstablishedIdle => "HSCR_ESTABLISHED_IDLE".spec_bytes(),
            HsState::HSCREstablishedWaiting => "HSCR_ESTABLISHED_WAITING".spec_bytes(),
            HsState::HSCRJoined => "HSCR_JOINED".spec_bytes(),
            HsState::HSSIConnecting => "HSSI_CONNECTING".spec_bytes(),
            HsState::HSSIEstablished => "HSSI_ESTABLISHED".spec_bytes(),
            HsState::HSSRConnecting => "HSSR_CONNECTING".spec_bytes(),
            HsState::HSSRJoined => "HSSR_JOINED".spec_bytes(),
        }
    }

    /// The value whose token `w` is.
    pub open spec fn from_token(w: Seq<u8>) -> Option<Self> {
        if w == "HSCI_CONNECTING".spec_bytes() {
            Some(HsState::HSCIConnecting)
        } else if w == "HSCI_INTROSENT".spec_bytes() {
            Some(HsState::HSCIIntroSent)
        } else if w == "HSCI_DONE".spec_bytes() {
            Some(HsState::HSCIDone)
        } else if w == "HSCR_CONNECTING".spec_bytes() {
            Some(HsState::HSCRConnecting)
        } else if w == "HSCR_ESTABLISHED_IDLE".spec_bytes() {
            Some(HsState::HSCREstablishedIdle)
        } else if w == "HSCR_ESTABLISHED_WAITING".spec_bytes() {
            Some(HsState::HSCREstablishedWaiting)
        } else if w == "HSCR_JOINED".spec_bytes() {
            Some(HsState::HSCRJoined)
        } else if w == "HSSI_CONNECTING".spec_bytes() {
            Some(HsState::HSSIConnecting)
        } else if w == "HSSI_ESTABLISHED".spec_bytes() {
            Some(HsState::HSSIEstablished)
        } else if w == "HSSR_CONNECTING".spec_bytes() {
            Some(HsState::HSSRConnecting)
        } else if w == "HSSR_JOINED".spec_bytes() {
            Some(HsState::HSSRJoined)
        } else {
            None
        }
    }

    /// The value whose token is the whole of `w`.
    pub fn parse(w: &[u8]) -> (r: Option<Self>)
        ensures
            r == Self::from_token(w@),
    {
        if eq_bytes(w, "HSCI_CONNECTING".as_bytes()) {
            Some(HsState::HSCIConnecting)
        } else if eq_bytes(w, "HSCI_INTROSENT".as_bytes()) {
            Some(HsState::HSCIIntroSent)
        } else if eq_bytes(w, "HSCI_DONE".as_bytes()) {
            Some(HsState::HSCIDone)
        } else if eq_bytes(w, "HSCR_CONNECTING".as_bytes()) {
            Some(HsState::HSCRConnecting)
        } else if eq_bytes(w, "HSCR_ESTABLISHED_IDLE".as_bytes()) {
            Some(HsState::HSCREstablishedIdle)
        } else if eq_bytes(w, "HSCR_ESTABLISHED_WAITING".as_bytes()) {
            Some(HsState::HSCREstablishedWaiting)
        } else if eq_bytes(w, "HSCR_JOINED".as_bytes()) {
            Some(HsState::HSCRJoined)
        } else if eq_bytes(w, "HSSI_CONNECTING".as_bytes()) {
            Some(HsState::HSSIConnecting)
        } else if eq_bytes(w, "HSSI_ESTABLISHED".as_bytes()) {
            Some(HsState::HSSIEstablished)
        } else if eq_bytes(w, "HSSR_CONNECTING".as_bytes()) {
            Some(HsState::HSSRConnecting)
        } else if eq_bytes(w, "HSSR_JOINED".as_bytes()) {
            Some(HsState::HSSRJoined)
        } else {
            None
        }
    }

    /// The token of this value.
    pub fn to_text(&self) -> (r: &'static [u8])
        ensures
            r@ == self.token(),
    {
        match self {
            HsState::HSCIConnecting => "HSCI_CONNECTING".as_bytes(),
            HsState::HSCIIntroSent => "HSCI_INTROSENT".as_bytes(),
            HsState::HSCIDone => "HSCI_DONE".as_bytes(),
            HsState::HSCRConnecting => "HSCR_CONNECTING".as_bytes(),
            HsState::HSCREstablishedIdle => "HSCR_ESTABLISHED_IDLE".as_bytes(),
            HsState::HSCREstablishedWaiting => "HSCR_ESTABLISHED_WAITING".as_bytes(),
            HsState::HSCRJoined => "HSCR_JOINED".as_bytes(),
            HsState::HSSIConnecting => "HSSI_CONNECTING".as_bytes(),
            HsState::HSSIEstablished => "HSSI_ESTABLISHED".as_bytes(),
            HsState::HSSRConnecting => "HSSR_CONNECTING".as_bytes(),
            HsState::HSSRJoined => "HSSR_JOINED".as_bytes(),
        }
    }
}

/// Why a circuit was closed or failed.
#[derive(Debug, Clone, Copy, PartialEq, Eq, Structural)]
pub enum CircuitReason {
    NoReason,
    TorProtocol,
    Internal,
    Requested,
    Hibernating,
    ResourceLimit,
    ConnectFailed,
    OrIdentity,
    OrConnClosed,
    Timeout,
    Finished,
    Destroyed,
    Nopath,
    Nosuchservice,
    MeasurementExpired,
}

impl CircuitReason {
    /// Its token on the wire.
    pub open spec fn token(self) -> Seq<u8> {
        match self {
            CircuitReason::NoReason => "NONE".spec_bytes(),
            CircuitReason::TorProtocol => "TORPROTOCOL".spec_bytes(),
            CircuitReason::Internal => "INTERNAL".spec_bytes(),
            CircuitReason::Requested => "REQUESTED".spec_bytes(),
            CircuitReason::Hibernating => "HIBERNATING".spec_bytes(),
            CircuitReason::ResourceLimit => "RESOURCELIMIT".spec_bytes(),
            CircuitReason::ConnectFailed => "CONNECTFAILED".spec_bytes(),
            CircuitReason::OrIdentity => "OR_IDENTITY".spec_bytes(),
            CircuitReason::OrConnClosed => "OR_CONN_CLOSED".spec_bytes(),
            CircuitReason::Timeout => "TIMEOUT".spec_bytes(),
            CircuitReason::Finished => "FINISHED".spec_bytes(),
            CircuitReason::Destroyed => "DESTROYED".spec_bytes(),
            CircuitReason::Nopath => "NOPATH".spec_bytes(),
            CircuitReason::Nosuchservice => "NOSUCHSERVICE".spec_bytes(),
            CircuitReason::MeasurementExpired => "MEASUREMENT_EXPIRED".spec_bytes(),
        }
    }

    /// The value whose token `w` is.
    pub open spec fn from_token(w: Seq<u8>) -> Option<Self> {
        if w == "NONE".spec_bytes() {
            Some(CircuitReason::NoReason)
        } else if w == "TORPROTOCOL".spec_bytes() {
            Some(CircuitReason::TorProtocol)
        } else if w == "INTERNAL".spec_bytes() {
            Some(CircuitReason::Internal)
        } else if w == "REQUESTED".spec_bytes() {
            Some(CircuitReason::Requested)
        } else if w == "HIBERNATING".spec_bytes() {
            Some(CircuitReason::Hibernating)
        } else if w == "RESOURCELIMIT".spec_bytes() {
            Some(CircuitReason::ResourceLimit)
        } else if w == "CONNECTFAILED".spec_bytes() {
            Some(CircuitReason::ConnectFailed)
        } else if w == "OR_IDENTITY".spec_bytes() {
            Some(CircuitReason::OrIdentity)
        } else if w == "OR_CONN_CLOSED".spec_bytes() {
            Some(CircuitReason::OrConnClosed)
        } else if w == "TIMEOUT".spec_bytes() {
            Some(CircuitReason::Timeout)
        } else if w == "FINISHED".spec_bytes() {
            Some(CircuitReason::Finished)
        } else if w == "DESTROYED".spec_bytes() {
            Some(CircuitReason::Destroyed)
        } else if w == "NOPATH".spec_bytes() {
            Some(CircuitReason::Nopath)
        } else if w == "NOSUCHSERVICE".spec_bytes() {
            Some(CircuitReason::Nosuchservice)
        } else if w == "MEASUREMENT_EXPIRED".spec_bytes() {
            Some(CircuitReason::MeasurementExpired)
        } else {
            None
        }
    }

    /// The value whose token is the whole of `w`.
    pub fn parse(w: &[u8]) -> (r: Option<Self>)
        ensures
            r == Self::from_token(w@),
    {
        if eq_bytes(w, "NONE".as_bytes()) {
            Some(CircuitReason::NoReason)
        } else if eq_bytes(w, "TORPROTOCOL".as_bytes()) {
            Some(CircuitReason::TorProtocol)
        } else if eq_bytes(w, "INTERNAL".as_bytes()) {
            Some(CircuitReason::Internal)
        } else if eq_bytes(w, "REQUESTED".as_bytes()) {
            Some(CircuitReason::Requested)
        } else if eq_bytes(w, "HIBERNATING".as_bytes()) {
            Some(CircuitReason::Hibernating)
        } else if eq_bytes(w, "RESOURCELIMIT".as_bytes()) {
            Some(CircuitReason::ResourceLimit)
        } else if eq_bytes(w, "CONNECTFAILED".as_bytes()) {
            Some(CircuitReason::ConnectFailed)
        } else if eq_bytes(w, "OR_IDENTITY".as_bytes()) {
            Some(CircuitReason::OrIdentity)
        } else if eq_bytes(w, "OR_CONN_CLOSED".as_bytes()) {
            Some(CircuitReason::OrConnClosed)
        } else if eq_bytes(w, "TIMEOUT".as_bytes()) {
            Some(CircuitReason::Timeout)
        } else if eq_bytes(w, "FINISHED".as_bytes()) {
            Some(CircuitReason::Finished)
        } else if eq_bytes(w, "DESTROYED".as_bytes()) {
            Some(CircuitReason::Destroyed)
        } else if eq_bytes(w, "NOPATH".as_bytes()) {
            Some(CircuitReason::Nopath)
        } else if eq_bytes(w, "NOSUCHSERVICE".as_bytes()) {
            Some(CircuitReason::Nosuchservice)
        } else if eq_bytes(w, "MEASUREMENT_EXPIRED".as_bytes()) {
            Some(CircuitReason::MeasurementExpired)
        } else {
            None
        }
    }

    /// The token of this value.
    pub fn to_text(&self) -> (r: &'static [u8])
        ensures
            r@ == self.token(),
    {
        match self {
            CircuitReason::NoReason => "NONE".as_bytes(),
            CircuitReason::TorProtocol => "TORPROTOCOL".as_bytes(),
            CircuitReason::Internal => "INTERNAL".as_bytes(),
            CircuitReason::Requested => "REQUESTED".as_bytes(),
            CircuitReason::Hibernating => "HIBERNATING".as_bytes(),
            CircuitReason::ResourceLimit => "RESOURCELIMIT".as_bytes(),
            CircuitReason::ConnectFailed => "CONNECTFAILED".as_bytes(),
            CircuitReason::OrIdentity => "OR_IDENTITY".as_bytes(),
            CircuitReason::OrConnClosed => "OR_CONN_CLOSED".as_bytes(),
            CircuitReason::Timeout => "TIMEOUT".as_bytes(),
            CircuitReason::Finished => "FINISHED".as_bytes(),
            CircuitReason::Destroyed => "DESTROYED".as_bytes(),
            CircuitReason::Nopath => "NOPATH".as_bytes(),
            CircuitReason::Nosuchservice => "NOSUCHSERVICE".as_bytes(),
            CircuitReason::MeasurementExpired => "MEASUREMENT_EXPIRED".as_bytes(),
        }
    }
}


/// A nickname: one to nineteen letters and digits.
pub open spec fn nickname_ok(n: Seq<u8>) -> bool {
    1 <= n.len() <= 19 && all_alnum(n)
}

/// One hop of a circuit's path.
#[derive(Debug, Clone, PartialEq, Eq)]
pub struct Step {
    pub fingerprint: [u8; 20],
    pub nickname: Option<Vec<u8>>,
}

pub struct StepView {
    pub fingerprint: Seq<u8>,
    pub nickname: Option<Seq<u8>>,
}

pub open spec fn opt_bytes(o: Option<Vec<u8>>) -> Option<Seq<u8>> {
    match o {
        Some(v) => Some(v@),
        None => None,
    }
}

impl View for Step {
    type V = StepView;

    open spec fn view(&self) -> StepView {
        StepView { fingerprint: self.fingerprint@, nickname: opt_bytes(self.nickname) }
    }
}

/// The hop written `$<40 hex digits>`, then optionally `~` or `=` and a nickname.
pub open spec fn step_of(w: Seq<u8>) -> Option<StepView> {
    if w.len() >= 41 && w[0] == 36u8 && all_hex(w.subrange(1, 41)) {
        let fp = hex_bytes_of(w.subrange(1, 41));
        let rest = w.subrange(41, w.len() as int);
        if rest.len() == 0 {
            Some(StepView { fingerprint: fp, nickname: None })
        } else if (rest[0] == 126u8 || rest[0] == 61u8) && nickname_ok(
            rest.subrange(1, rest.len() as int),
        ) {
            Some(StepView { fingerprint: fp, nickname: Some(rest.subrange(1, rest.len() as int)) })
        } else {
            None
        }
    } else {
        None
    }
}

fn fingerprint_from(hex: &[u8]) -> (r: Option<[u8; 20]>)
    requires
        hex@.len() == 40,
    ensures
        match r {
            Some(f) => all_hex(hex@) && f@ == hex_bytes_of(hex@),
            None => !all_hex(hex@),
        },
{
    let fp = match hex_decode(hex) {
        Some(b) => b,
        None => {
            return None;
        },
    };
    let f: [u8; 20] = to_array(fp.as_slice());
    Some(f)
}

impl Step {
    /// The hop that is the whole of `w`.
    pub fn parse(w: &[u8]) -> (r: Option<Step>)
        ensures
            match r {
                Some(st) => step_of(w@) == Some(st@),
                None => step_of(w@) is None,
            },
    {
        if w.len() < 41 || w[0] != 36 {
            return None;
        }
        let hex = copy_range(w, 1, 41);
        let fingerprint = match fingerprint_from(hex.as_slice()) {
            Some(f) => f,
            None => {
                return None;
            },
        };
        let ghost rest = w@.subrange(41, w@.len() as int);
        if w.len() == 41 {
            return Some(Step { fingerprint, nickname: None });
        }
        assert(rest[0] == w@[41]);
        if w[41] != 126 && w[41] != 61 {
            return None;
        }
        let nick = copy_range(w, 42, w.len());
        assert(nick@ =~= rest.subrange(1, rest.len() as int));
        if nick.len() == 0 || nick.len() > 19 || !check_alnum(nick.as_slice()) {
            return None;
        }
        Some(Step { fingerprint, nickname: Some(nick) })
    }
}

/// The hops of a circuit, first to last.
#[derive(Debug, Clone, PartialEq, Eq)]
pub struct Path(pub Vec<Step>);

impl View for Path {
    type V = Seq<StepView>;

    open spec fn view(&self) -> Seq<StepView> {
        self.0@.map_values(|st: Step| st@)
    }
}

/// The hops written as a comma-separated list.
pub open spec fn path_of(w: Seq<u8>) -> Option<Seq<StepView>> {
    let parts = split_on(w, seq![44u8]);
    if forall|i: int| 0 <= i < parts.len() ==> (#[trigger] step_of(parts[i])) is Some {
        Some(parts.map_values(|p: Seq<u8>| step_of(p)->0))
    } else {
        None
    }
}

impl Path {
    /// The path that is the whole of `w`.
    pub fn parse(w: &[u8]) -> (r: Option<Path>)
        ensures
            match r {
                Some(p) => path_of(w@) == Some(p@),
                None => path_of(w@) is None,
            },
    {
        let parts = split_bytes(w, sep_of(44).as_slice());
        let ghost g = bytes_of(parts@);
        let mut out: Vec<Step> = Vec::new();
        let mut i: usize = 0;
        while i < parts.len()
            invariant
                i <= parts@.len() == g.len(),
                g == bytes_of(parts@),
                g == split_on(w@, seq![44u8]),
                forall|j: int| 0 <= j < i ==> (#[trigger] step_of(g[j])) is Some,
                out@.len() == i,
                forall|j: int| 0 <= j < i ==> (#[trigger] out@[j])@ == step_of(g[j])->0,
            decreases parts@.len() - i,
        {
            assert(g[i as int] == parts@[i as int]@);
            match Step::parse(parts[i].as_slice()) {
                Some(st) => {
                    assert(st@ == step_of(g[i as int])->0);
                    out.push(st);
                },
                None => {
                    return None;
                },
            }
            i = i + 1;
        }
        assert(out@.map_values(|st: Step| st@) =~= g.map_values(|p: Seq<u8>| step_of(p)->0));
        Some(Path(out))
    }
}

/// The build flags of a circuit, in the order written.
#[derive(Debug, Clone, PartialEq, Eq)]
pub struct CircuitBuildFlags(pub Vec<CircuitBuildFlag>);

/// The flags written as a comma-separated list.
pub open spec fn build_flags_of(w: Seq<u8>) -> Option<Seq<CircuitBuildFlag>> {
    let parts = split_on(w, seq![44u8]);
    if forall|i: int| 0 <= i < parts.len() ==> (#[trigger] CircuitBuildFlag::from_token(parts[i])) is Some {
        Some(parts.map_values(|p: Seq<u8>| CircuitBuildFlag::from_token(p)->0))
    } else {
        None
    }
}

impl CircuitBuildFlags {
    /// The flags that are the whole of `w`.
    pub fn parse(w: &[u8]) -> (r: Option<CircuitBuildFlags>)
        ensures
            match r {
                Some(f) => build_flags_of(w@) == Some(f.0@),
                None => build_flags_of(w@) is None,
            },
    {
        let parts = split_bytes(w, sep_of(44).as_slice());
        let ghost g = bytes_of(parts@);
        let mut out: Vec<CircuitBuildFlag> = Vec::new();
        let mut i: usize = 0;
        while i < parts.len()
            invariant
                i <= parts@.len() == g.len(),
                g == bytes_of(parts@),
                g == split_on(w@, seq![44u8]),
                forall|j: int| 0 <= j < i ==> (#[trigger] CircuitBuildFlag::from_token(g[j])) is Some,
                out@ =~= g.subrange(0, i as int).map_values(
                    |p: Seq<u8>| CircuitBuildFlag::from_token(p)->0,
                ),
            decreases parts@.len() - i,
        {
            assert(g[i as int] == parts@[i as int]@);
            match CircuitBuildFlag::parse(parts[i].as_slice()) {
                Some(f) => {
                    out.push(f);
                },
                None => {
                    return None;
                },
            }
            i = i + 1;
            assert(out@ =~= g.subrange(0, i as int).map_values(
                |p: Seq<u8>| CircuitBuildFlag::from_token(p)->0,
            ));
        }
        assert(g.subrange(0, i as int) =~= g);
        Some(CircuitBuildFlags(out))
    }
}

/// A hidden-service address: ten bytes (v2) or thirty-five (v3).
#[derive(Debug, Clone, PartialEq, Eq)]
pub enum HsAddress {
    V2([u8; 10]),
    V3([u8; 35]),
}

pub enum HsAddressView {
    V2(Seq<u8>),
    V3(Seq<u8>),
}

impl View for HsAddress {
    type V = HsAddressView;

    open spec fn view(&self) -> HsAddressView {
        match self {
            HsAddress::V2(a) => HsAddressView::V2(a@),
            HsAddress::V3(a) => HsAddressView::V3(a@),
        }
    }
}

/// The address written in base32, either case: 16 characters for v2 (ten
/// bytes), 56 for v3 (thirty-five bytes).
pub open spec fn hs_address_of(w: Seq<u8>) -> Option<HsAddressView> {
    if (w.len() == 16 || w.len() == 56) && forall|i: int| 0 <= i < w.len() ==> is_base32_byte(#[trigger] w[i]) {
        if w.len() == 16 && base32_decoded(w).len() == 10 {
            Some(HsAddressView::V2(base32_decoded(w)))
        } else if w.len() == 56 && base32_decoded(w).len() == 35 {
            Some(HsAddressView::V3(base32_decoded(w)))
        } else {
            None
        }
    } else {
        None
    }
}

/// The outside codec writes `b` as upper-case base32, eight characters for
/// every five bytes, that decodes back to `b` in lower case. `base32_encode`
/// states this of every group of five bytes it is called on.
pub open spec fn base32_round_trips(b: Seq<u8>) -> bool {
    let e = base32_encoded(b);
    &&& forall|i: int| 0 <= i < e.len() ==> is_upper_base32(#[trigger] e[i])
    &&& e.len() == b.len() / 5 * 8
    &&& base32_decoded(ascii_lower(e)) == b
}

/// An address of the length its version gives it, which the codec writes
/// and reads back.
pub open spec fn hs_wf(a: HsAddressView) -> bool {
    match a {
        HsAddressView::V2(b) => b.len() == 10 && base32_round_trips(b),
        HsAddressView::V3(b) => b.len() == 35 && base32_round_trips(b),
    }
}

/// The text of an address reads back as that address, and holds no space.
pub proof fn lemma_hs_round_trip(a: HsAddressView)
    requires
        hs_wf(a),
    ensures
        hs_address_of(hs_text(a)) == Some(a),
        lacks(hs_text(a), 32u8),
{
    let b = match a {
        HsAddressView::V2(b) => b,
        HsAddressView::V3(b) => b,
    };
    let e = base32_encoded(b);
    let t = ascii_lower(e);
    assert(hs_text(a) == t);
    assert forall|i: int| 0 <= i < t.len() implies is_base32_byte(#[trigger] t[i]) && t[i] != 32u8 by {
        assert(is_upper_base32(e[i]));
    }
    assert(lacks(t, 32u8));
}

impl HsAddress {
    /// The address that is the whole of `w`.
    pub fn parse(w: &[u8]) -> (r: Option<HsAddress>)
        ensures
            match r {
                Some(a) => hs_address_of(w@) == Some(a@),
                None => hs_address_of(w@) is None,
            },
    {
        if w.len() != 16 && w.len() != 56 {
            return None;
        }
        let mut i: usize = 0;
        while i < w.len()
            invariant
                i <= w@.len(),
                forall|j: int| 0 <= j < i ==> is_base32_byte(#[trigger] w@[j]),
            decreases w@.len() - i,
        {
            let c = w[i];
            if !((65 <= c && c <= 90) || (97 <= c && c <= 122) || (50 <= c && c <= 55)) {
                return None;
            }
            i = i + 1;
        }
        let b = base32_decode(w).unwrap();
        if w.len() == 16 {
            let a: [u8; 10] = to_array(b.as_slice());
            Some(HsAddress::V2(a))
        } else {
            let a: [u8; 35] = to_array(b.as_slice());
            Some(HsAddress::V3(a))
        }
    }
}


/// A circuit as the daemon describes it.
#[derive(Debug, Clone, PartialEq, Eq)]
pub struct Circuit {
    pub id: CircuitID,
    pub status: CircuitStatus,
    pub path: Path,
    pub build_flags: CircuitBuildFlags,
    pub purpose: Option<CircuitPurpose>,
    pub hs_state: Option<HsState>,
    pub rend_query: Option<HsAddress>,
    pub time_created: Option<Time>,
    pub reason: Option<CircuitReason>,
    pub socks_username: Option<Vec<u8>>,
    pub socks_password: Option<Vec<u8>>,
}

pub struct CircuitView {
    pub id: Seq<u8>,
    pub status: CircuitStatus,
    pub path: Seq<StepView>,
    pub build_flags: Seq<CircuitBuildFlag>,
    pub purpose: Option<CircuitPurpose>,
    pub hs_state: Option<HsState>,
    pub rend_query: Option<HsAddressView>,
    pub time_created: Option<Time>,
    pub reason: Option<CircuitReason>,
    pub socks_username: Option<Seq<u8>>,
    pub socks_password: Option<Seq<u8>>,
}

pub open spec fn opt_hs(o: Option<HsAddress>) -> Option<HsAddressView> {
    match o {
        Some(a) => Some(a@),
        None => None,
    }
}

impl View for Circuit {
    type V = CircuitView;

    open spec fn view(&self) -> CircuitView {
        CircuitView {
            id: self.id.0@,
            status: self.status,
            path: self.path@,
            build_flags: self.build_flags.0@,
            purpose: self.purpose,
            hs_state: self.hs_state,
            rend_query: opt_hs(self.rend_query),
            time_created: self.time_created,
            reason: self.reason,
            socks_username: opt_bytes(self.socks_username),
            socks_password: opt_bytes(self.socks_password),
        }
    }
}

/// Rank of an optional key of a circuit line; -1 for an unknown key.
pub open spec fn key_index(k: Seq<u8>) -> int {
    if k == "BUILD_FLAGS".spec_bytes() {
        0
    } else if k == "PURPOSE".spec_bytes() {
        1
    } else if k == "HS_STATE".spec_bytes() {
        2
    } else if k == "REND_QUERY".spec_bytes() {
        3
    } else if k == "TIME_CREATED".spec_bytes() {
        4
    } else if k == "REASON".spec_bytes() {
        5
    } else if k == "SOCKS_USERNAME".spec_bytes() {
        6
    } else if k == "SOCKS_PASSWORD".spec_bytes() {
        7
    } else {
        -1
    }
}

fn key_index_exec(k: &[u8]) -> (r: i8)
    ensures
        r == key_index(k@),
{
    if eq_bytes(k, "BUILD_FLAGS".as_bytes()) {
        0
    } else if eq_bytes(k, "PURPOSE".as_bytes()) {
        1
    } else if eq_bytes(k, "HS_STATE".as_bytes()) {
        2
    } else if eq_bytes(k, "REND_QUERY".as_bytes()) {
        3
    } else if eq_bytes(k, "TIME_CREATED".as_bytes()) {
        4
    } else if eq_bytes(k, "REASON".as_bytes()) {
        5
    } else if eq_bytes(k, "SOCKS_USERNAME".as_bytes()) {
        6
    } else if eq_bytes(k, "SOCKS_PASSWORD".as_bytes()) {
        7
    } else {
        -1
    }
}

/// `c` with the optional field of rank `idx` read from `val`.
#[verifier::opaque]
pub open spec fn with_field(c: CircuitView, idx: int, val: Seq<u8>) -> Option<CircuitView> {
    if idx == 0 {
        match build_flags_of(val) {
            Some(f) => Some(CircuitView { build_flags: f, ..c }),
            None => None,
        }
    } else if idx == 1 {
        match CircuitPurpose::from_token(val) {
            Some(p) => Some(CircuitView { purpose: Some(p), ..c }),
            None => None,
        }
    } else if idx == 2 {
        match HsState::from_token(val) {
            Some(h) => Some(CircuitView { hs_state: Some(h), ..c }),
            None => None,
        }
    } else if idx == 3 {
        match hs_address_of(val) {
            Some(a) => Some(CircuitView { rend_query: Some(a), ..c }),
            None => None,
        }
    } else if idx == 4 {
        match time_of(val) {
            Some(t) => Some(CircuitView { time_created: Some(t), ..c }),
            None => None,
        }
    } else if idx == 5 {
        match CircuitReason::from_token(val) {
            Some(r) => Some(CircuitView { reason: Some(r), ..c }),
            None => None,
        }
    } else if idx == 6 {
        match quoted_of(val) {
            Some(u) => Some(CircuitView { socks_username: Some(u), ..c }),
            None => None,
        }
    } else if idx == 7 {
        match quoted_of(val) {
            Some(u) => Some(CircuitView { socks_password: Some(u), ..c }),
            None => None,
        }
    } else {
        None
    }
}

/// Reads the `KEY=value` words from `i` on into `c`; each key comes at most
/// once and in rank order, from `slot` up.
#[verifier::opaque]
pub open spec fn circuit_fields(words: Seq<Seq<u8>>, i: int, slot: int, c: CircuitView) -> Option<
    CircuitView,
>
    decreases words.len() - i,
{
    if i < 0 || i >= words.len() {
        Some(c)
    } else {
        let w = words[i];
        let k = first_occ(w, seq![61u8], 0);
        let idx = key_index(w.subrange(0, k));
        if k >= w.len() || idx < slot {
            None
        } else {
            match with_field(c, idx, w.subrange(k + 1, w.len() as int)) {
                Some(c2) => circuit_fields(words, i + 1, idx + 1, c2),
                None => None,
            }
        }
    }
}

/// The circuit written on one line: `<id> <status> [<path>] [KEY=value]...`.
#[verifier::opaque]
pub open spec fn circuit_of(line: Seq<u8>) -> Option<CircuitView> {
    let w = split_on(skip_crlf(line), seq![32u8]);
    if w.len() >= 2 && id_valid(w[0]) && CircuitStatus::from_token(w[1]) is Some {
        let base = CircuitView {
            id: w[0],
            status: CircuitStatus::from_token(w[1])->0,
            path: Seq::empty(),
            build_flags: Seq::empty(),
            purpose: None,
            hs_state: None,
            rend_query: None,
            time_created: None,
            reason: None,
            socks_username: None,
            socks_password: None,
        };
        if w.len() >= 3 && w[2].len() > 0 && w[2][0] == 36u8 {
            match path_of(w[2]) {
                Some(p) => circuit_fields(w, 3, 0, CircuitView { path: p, ..base }),
                None => None,
            }
        } else {
            circuit_fields(w, 2, 0, base)
        }
    } else {
        None
    }
}

impl Circuit {
    /// Reads the optional field of rank `idx` from `val` into `self`.
    fn set_field(&mut self, idx: i8, val: &[u8]) -> (ok: bool)
        requires
            0 <= idx < 8,
        ensures
            ok == with_field(old(self)@, idx as int, val@) is Some,
            ok ==> with_field(old(self)@, idx as int, val@) == Some(final(self)@),
    {
        proof {
            reveal(with_field);
        }
        if idx == 0 {
            match CircuitBuildFlags::parse(val) {
                Some(f) => {
                    self.build_flags = f;
                    true
                },
                None => false,
            }
        } else if idx == 1 {
            match CircuitPurpose::parse(val) {
                Some(p) => {
                    self.purpose = Some(p);
                    true
                },
                None => false,
            }
        } else if idx == 2 {
            match HsState::parse(val) {
                Some(h) => {
                    self.hs_state = Some(h);
                    true
                },
                None => false,
            }
        } else if idx == 3 {
            match HsAddress::parse(val) {
                Some(a) => {
                    self.rend_query = Some(a);
                    true
                },
                None => false,
            }
        } else if idx == 4 {
            match Time::parse(val) {
                Some(t) => {
                    self.time_created = Some(t);
                    true
                },
                None => false,
            }
        } else if idx == 5 {
            match CircuitReason::parse(val) {
                Some(r) => {
                    self.reason = Some(r);
                    true
                },
                None => false,
            }
        } else if idx == 6 {
            match parse_quoted(val) {
                Some(u) => {
                    self.socks_username = Some(u);
                    true
                },
                None => false,
            }
        } else {
            match parse_quoted(val) {
                Some(u) => {
                    self.socks_password = Some(u);
                    true
                },
                None => false,
            }
        }
    }

    /// The circuit written on the whole of `line`.
    pub fn parse(line: &[u8]) -> (r: Option<Circuit>)
        ensures
            match r {
                Some(c) => circuit_of(line@) == Some(c@),
                None => circuit_of(line@) is None,
            },
    {
        reveal(circuit_of);
        reveal(circuit_fields);
        let body = skip_leading_crlf(line);
        let words = split_bytes(body.as_slice(), sep_of(32).as_slice());
        let ghost w = bytes_of(words@);
        assert(w.len() == words@.len());
        if words.len() < 2 {
            return None;
        }
        assert(w[0] == words@[0]@);
        assert(w[1] == words@[1]@);
        let id = match CircuitID::parse(words[0].as_slice()) {
            Some(id) => id,
            None => {
                return None;
            },
        };
        let status = match CircuitStatus::parse(words[1].as_slice()) {
            Some(st) => st,
            None => {
                return None;
            },
        };
        let mut c = Circuit {
            id,
            status,
            path: Path(Vec::new()),
            build_flags: CircuitBuildFlags(Vec::new()),
            purpose: None,
            hs_state: None,
            rend_query: None,
            time_created: None,
            reason: None,
            socks_username: None,
            socks_password: None,
        };
        assert(c@.path =~= Seq::<StepView>::empty());
        assert(c@.build_flags =~= Seq::<CircuitBuildFlag>::empty());
        let mut i: usize = 2;
        if words.len() >= 3 && words[2].len() > 0 && words[2][0] == 36 {
            assert(w[2] == words@[2]@);
            match Path::parse(words[2].as_slice()) {
                Some(p) => {
                    c.path = p;
                },
                None => {
                    return None;
                },
            }
            i = 3;
        }
        let ghost start = i as int;
        let ghost c0 = c@;
        assert(circuit_of(line@) == circuit_fields(w, start, 0, c0));
        let mut slot: i8 = 0;
        while i < words.len()
            invariant
                2 <= i <= words@.len(),
                0 <= slot <= 8,
                w == bytes_of(words@),
                w == split_on(skip_crlf(line@), seq![32u8]),
                circuit_of(line@) == circuit_fields(w, i as int, slot as int, c@),
            decreases words@.len() - i,
        {
            proof {
                reveal(circuit_fields);
            }
            let word = words[i].as_slice();
            assert(word@ == w[i as int]);
            let k = find_from(word, sep_of(61).as_slice(), 0);
            if k >= word.len() {
                return None;
            }
            let key = copy_range(word, 0, k);
            let idx = key_index_exec(key.as_slice());
            if idx < slot {
                return None;
            }
            let val = copy_range(word, k + 1, word.len());
            if !c.set_field(idx, val.as_slice()) {
                return None;
            }
            slot = idx + 1;
            i = i + 1;
        }
        Some(c)
    }
}

/// The circuits that a `circuit-status` value lists, one per line; none where the value
/// is empty; `None` where a line is no circuit.
pub open spec fn circuits_of(v: Seq<u8>) -> Option<Seq<CircuitView>> {
    let l = record_lines(v);
    if forall|i: int| 0 <= i < l.len() ==> (#[trigger] circuit_of(l[i])) is Some {
        Some(l.map_values(|x: Seq<u8>| circuit_of(x)->0))
    } else {
        None
    }
}

/// The circuits that the `circuit-status` value `v` lists; none where it is empty; a
/// parsing error, holding the line, where a line is no circuit.
pub fn parse_circuits(v: &[u8]) -> (r: Result<Vec<Circuit>, Error>)
    ensures
        match circuits_of(v@) {
            Some(xs) => r is Ok && r->Ok_0@.map_values(|x: Circuit| x@) == xs,
            None => r is Err && r->Err_0 is Parsing,
        },
{
    let lines = split_records(v);
    let ghost l = bytes_of(lines@);
    let mut out: Vec<Circuit> = Vec::new();
    let mut i: usize = 0;
    while i < lines.len()
        invariant
            i <= lines@.len() == l.len(),
            l == bytes_of(lines@),
            l == record_lines(v@),
            out@.len() == i,
            forall|j: int| 0 <= j < i ==> (#[trigger] circuit_of(l[j])) is Some && out@[j]@ == circuit_of(l[j])->0,
        decreases lines@.len() - i,
    {
        assert(l[i as int] == lines@[i as int]@);
        match Circuit::parse(lines[i].as_slice()) {
            Some(x) => {
                out.push(x);
            },
            None => {
                let bad = copy_range(lines[i].as_slice(), 0, lines[i].len());
                return Err(Error::Parsing(bad));
            },
        }
        i = i + 1;
    }
    assert(out@.map_values(|x: Circuit| x@) =~= l.map_values(|x: Seq<u8>| circuit_of(x)->0));
    Ok(out)
}


/// The hop as written: `$`, the fingerprint in upper-case hex, then `~` and
/// the nickname if it has one.
pub open spec fn step_text(st: StepView) -> Seq<u8> {
    seq![36u8] + hex_upper(st.fingerprint) + match st.nickname {
        Some(n) => seq![126u8] + n,
        None => Seq::empty(),
    }
}

/// The hops as written, comma-separated.
pub open spec fn path_text(p: Seq<StepView>) -> Seq<u8> {
    join_front(p.map_values(|st: StepView| step_text(st)), seq![44u8])
}

/// The build flags as written, comma-separated.
pub open spec fn flags_text(f: Seq<CircuitBuildFlag>) -> Seq<u8> {
    join_front(f.map_values(|x: CircuitBuildFlag| x.token()), seq![44u8])
}

/// The address as written: lower-case base32.
pub open spec fn hs_text(a: HsAddressView) -> Seq<u8> {
    match a {
        HsAddressView::V2(b) => ascii_lower(base32_encoded(b)),
        HsAddressView::V3(b) => ascii_lower(base32_encoded(b)),
    }
}

/// `s` as a quoted string, escaped.
pub open spec fn quote(s: Seq<u8>) -> Seq<u8> {
    seq![34u8] + escaped(s) + seq![34u8]
}

/// The key of the optional field of rank `idx`.
pub open spec fn key_name(idx: int) -> Seq<u8> {
    if idx == 0 {
        "BUILD_FLAGS".spec_bytes()
    } else if idx == 1 {
        "PURPOSE".spec_bytes()
    } else if idx == 2 {
        "HS_STATE".spec_bytes()
    } else if idx == 3 {
        "REND_QUERY".spec_bytes()
    } else if idx == 4 {
        "TIME_CREATED".spec_bytes()
    } else if idx == 5 {
        "REASON".spec_bytes()
    } else if idx == 6 {
        "SOCKS_USERNAME".spec_bytes()
    } else {
        "SOCKS_PASSWORD".spec_bytes()
    }
}

fn key_name_exec(idx: usize) -> (r: &'static [u8])
    requires
        idx < 8,
    ensures
        r@ == key_name(idx as int),
{
    if idx == 0 {
        "BUILD_FLAGS".as_bytes()
    } else if idx == 1 {
        "PURPOSE".as_bytes()
    } else if idx == 2 {
        "HS_STATE".as_bytes()
    } else if idx == 3 {
        "REND_QUERY".as_bytes()
    } else if idx == 4 {
        "TIME_CREATED".as_bytes()
    } else if idx == 5 {
        "REASON".as_bytes()
    } else if idx == 6 {
        "SOCKS_USERNAME".as_bytes()
    } else {
        "SOCKS_PASSWORD".as_bytes()
    }
}

/// The value of the optional field of rank `idx`, as written, if present.
pub open spec fn field_value(c: CircuitView, idx: int) -> Option<Seq<u8>> {
    if idx == 0 {
        if c.build_flags.len() > 0 {
            Some(flags_text(c.build_flags))
        } else {
            None
        }
    } else if idx == 1 {
        match c.purpose {
            Some(p) => Some(p.token()),
            None => None,
        }
    } else if idx == 2 {
        match c.hs_state {
            Some(h) => Some(h.token()),
            None => None,
        }
    } else if idx == 3 {
        match c.rend_query {
            Some(a) => Some(hs_text(a)),
            None => None,
        }
    } else if idx == 4 {
        match c.time_created {
            Some(t) => Some(time_text(t)),
            None => None,
        }
    } else if idx == 5 {
        match c.reason {
            Some(r) => Some(r.token()),
            None => None,
        }
    } else if idx == 6 {
        match c.socks_username {
            Some(u) => Some(quote(u)),
            None => None,
        }
    } else {
        match c.socks_password {
            Some(u) => Some(quote(u)),
            None => None,
        }
    }
}

/// The `KEY=value` words of the optional fields from rank `from` on.
pub open spec fn fields_words(c: CircuitView, from: int) -> Seq<Seq<u8>>
    decreases 8 - from,
{
    if from < 0 || from >= 8 {
        Seq::empty()
    } else {
        let here = match field_value(c, from) {
            Some(v) => seq![key_name(from) + seq![61u8] + v],
            None => Seq::<Seq<u8>>::empty(),
        };
        here + fields_words(c, from + 1)
    }
}

/// The words of the circuit's line.
pub open spec fn circuit_words(c: CircuitView) -> Seq<Seq<u8>> {
    seq![c.id, c.status.token()] + (if c.path.len() > 0 {
        seq![path_text(c.path)]
    } else {
        Seq::empty()
    }) + fields_words(c, 0)
}

/// The circuit's line, as the daemon writes it.
pub open spec fn circuit_text(c: CircuitView) -> Seq<u8> {
    join_front(circuit_words(c), seq![32u8])
}

impl Step {
    /// The hop as written.
    pub fn to_text(&self) -> (r: Vec<u8>)
        ensures
            r@ == step_text(self@),
    {
        let mut out: Vec<u8> = Vec::new();
        out.push(36);
        let h = hex_encode(self.fingerprint.as_slice());
        push_bytes(&mut out, h.as_slice());
        match &self.nickname {
            Some(n) => {
                out.push(126);
                push_bytes(&mut out, n.as_slice());
            },
            None => {},
        }
        assert(out@ =~= step_text(self@));
        out
    }
}

impl Path {
    /// The hops as written.
    pub fn to_text(&self) -> (r: Vec<u8>)
        ensures
            r@ == path_text(self@),
    {
        let mut parts: Vec<Vec<u8>> = Vec::new();
        let mut i: usize = 0;
        while i < self.0.len()
            invariant
                i <= self.0@.len(),
                parts@.len() == i,
                forall|j: int| 0 <= j < i ==> (#[trigger] parts@[j])@ == step_text(self.0@[j]@),
            decreases self.0@.len() - i,
        {
            parts.push(self.0[i].to_text());
            i = i + 1;
        }
        assert(bytes_of(parts@) =~= self@.map_values(|st: StepView| step_text(st)));
        join_bytes(&parts, sep_of(44).as_slice())
    }
}

impl CircuitBuildFlags {
    /// The flags as written.
    pub fn to_text(&self) -> (r: Vec<u8>)
        ensures
            r@ == flags_text(self.0@),
    {
        let mut parts: Vec<Vec<u8>> = Vec::new();
        let mut i: usize = 0;
        while i < self.0.len()
            invariant
                i <= self.0@.len(),
                parts@.len() == i,
                forall|j: int| 0 <= j < i ==> (#[trigger] parts@[j])@ == self.0@[j].token(),
            decreases self.0@.len() - i,
        {
            let t = self.0[i].to_text();
            parts.push(copy_range(t, 0, t.len()));
            assert(t@.subrange(0, t@.len() as int) =~= t@);
            i = i + 1;
        }
        assert(bytes_of(parts@) =~= self.0@.map_values(|x: CircuitBuildFlag| x.token()));
        join_bytes(&parts, sep_of(44).as_slice())
    }
}

impl HsAddress {
    /// The address as written; the codec reads it back.
    pub fn to_text(&self) -> (r: Vec<u8>)
        ensures
            r@ == hs_text(self@),
            hs_wf(self@),
    {
        match self {
            HsAddress::V2(a) => to_ascii_lower(base32_encode(a.as_slice()).as_slice()),
            HsAddress::V3(a) => to_ascii_lower(base32_encode(a.as_slice()).as_slice()),
        }
    }
}

fn quoted(s: &[u8]) -> (r: Vec<u8>)
    ensures
        r@ == quote(s@),
{
    let mut out: Vec<u8> = Vec::new();
    out.push(34);
    write_escaped(&mut out, s);
    out.push(34);
    assert(out@ =~= quote(s@));
    out
}

impl Circuit {
    /// The value of the optional field of rank `idx`, as written.
    fn field_text(&self, idx: usize) -> (r: Option<Vec<u8>>)
        requires
            idx < 8,
        ensures
            match r {
                Some(v) => field_value(self@, idx as int) == Some(v@),
                None => field_value(self@, idx as int) is None,
            },
    {
        if idx == 0 {
            if self.build_flags.0.len() > 0 {
                Some(self.build_flags.to_text())
            } else {
                None
            }
        } else if idx == 1 {
            match &self.purpose {
                Some(p) => {
                    let t = p.to_text();
                    Some(copy_range(t, 0, t.len()))
                },
                None => None,
            }
        } else if idx == 2 {
            match &self.hs_state {
                Some(h) => {
                    let t = h.to_text();
                    Some(copy_range(t, 0, t.len()))
                },
                None => None,
            }
        } else if idx == 3 {
            match &self.rend_query {
                Some(a) => Some(a.to_text()),
                None => None,
            }
        } else if idx == 4 {
            match &self.time_created {
                Some(t) => Some(t.to_text()),
                None => None,
            }
        } else if idx == 5 {
            match &self.reason {
                Some(r) => {
                    let t = r.to_text();
                    Some(copy_range(t, 0, t.len()))
                },
                None => None,
            }
        } else if idx == 6 {
            match &self.socks_username {
                Some(u) => Some(quoted(u.as_slice())),
                None => None,
            }
        } else {
            match &self.socks_password {
                Some(u) => Some(quoted(u.as_slice())),
                None => None,
            }
        }
    }

    /// The circuit's line, as the daemon writes it.
    pub fn to_text(&self) -> (r: Vec<u8>)
        ensures
            r@ == circuit_text(self@),
    {
        let mut words: Vec<Vec<u8>> = Vec::new();
        let id = copy_range(self.id.0.as_slice(), 0, self.id.0.len());
        assert(id@ =~= self@.id);
        words.push(id);
        let st = self.status.to_text();
        let stv = copy_range(st, 0, st.len());
        assert(stv@ =~= self@.status.token());
        words.push(stv);
        if self.path.0.len() > 0 {
            words.push(self.path.to_text());
        }
        let ghost head = bytes_of(words@);
        assert(head =~= seq![self@.id, self@.status.token()] + (if self@.path.len() > 0 {
            seq![path_text(self@.path)]
        } else {
            Seq::empty()
        }));
        let mut idx: usize = 0;
        while idx < 8
            invariant
                idx <= 8,
                bytes_of(words@) + fields_words(self@, idx as int) == head + fields_words(self@, 0),
            decreases 8 - idx,
        {
            let ghost before = bytes_of(words@);
            match self.field_text(idx) {
                Some(v) => {
                    let mut w: Vec<u8> = Vec::new();
                    push_bytes(&mut w, key_name_exec(idx));
                    w.push(61);
                    push_bytes(&mut w, v.as_slice());
                    assert(w@ =~= key_name(idx as int) + seq![61u8] + v@);
                    assert(fields_words(self@, idx as int) =~= seq![w@] + fields_words(self@, idx + 1));
                    words.push(w);
                    assert(bytes_of(words@) =~= before.push(w@));
                    assert(before + fields_words(self@, idx as int) =~= before.push(w@) + fields_words(
                        self@,
                        idx + 1,
                    ));
                },
                None => {
                    assert(fields_words(self@, idx as int) =~= fields_words(self@, idx + 1));
                },
            }
            idx = idx + 1;
        }
        assert(fields_words(self@, 8) =~= Seq::<Seq<u8>>::empty());
        assert(bytes_of(words@) =~= circuit_words(self@));
        join_bytes(&words, sep_of(32).as_slice())
    }
}


/// A word that stays one word in a line and one item in a list: not empty,
/// and without a space, a comma or an equals sign.
pub open spec fn token_ok(t: Seq<u8>) -> bool {
    t.len() >= 1 && lacks(t, 32u8) && lacks(t, 44u8) && lacks(t, 61u8)
}

proof fn lemma_tokens_circuitstatus()
    ensures
        forall|v: CircuitStatus| #![trigger v.token()] CircuitStatus::from_token(v.token()) == Some(v) && token_ok(v.token()),
{
    reveal_strlit("LAUNCHED");
    vstd::string::is_ascii_spec_bytes("LAUNCHED");
    assert("LAUNCHED".spec_bytes() =~= seq![76u8, 65u8, 85u8, 78u8, 67u8, 72u8, 69u8, 68u8]);
    reveal_strlit("BUILT");
    vstd::string::is_ascii_spec_bytes("BUILT");
    assert("BUILT".spec_bytes() =~= seq![66u8, 85u8, 73u8, 76u8, 84u8]);
    reveal_strlit("GUARD_WAIT");
    vstd::string::is_ascii_spec_bytes("GUARD_WAIT");
    assert("GUARD_WAIT".spec_bytes() =~= seq![71u8, 85u8, 65u8, 82u8, 68u8, 95u8, 87u8, 65u8, 73u8, 84u8]);
    reveal_strlit("EXTENDED");
    vstd::string::is_ascii_spec_bytes("EXTENDED");
    assert("EXTENDED".spec_bytes() =~= seq![69u8, 88u8, 84u8, 69u8, 78u8, 68u8, 69u8, 68u8]);
    reveal_strlit("FAILED");
    vstd::string::is_ascii_spec_bytes("FAILED");
    assert("FAILED".spec_bytes() =~= seq![70u8, 65u8, 73u8, 76u8, 69u8, 68u8]);
    reveal_strlit("CLOSED");
    vstd::string::is_ascii_spec_bytes("CLOSED");
    assert("CLOSED".spec_bytes() =~= seq![67u8, 76u8, 79u8, 83u8, 69u8, 68u8]);
    assert forall|v: CircuitStatus| #![trigger v.token()] CircuitStatus::from_token(v.token()) == Some(v) && token_ok(v.token()) by {
        match v {
            CircuitStatus::Launched => {},
            CircuitStatus::Built => {},
            CircuitStatus::GuardWait => {},
            CircuitStatus::Extended => {},
            CircuitStatus::Failed => {},
            CircuitStatus::Closed => {},
        }
    }
}

proof fn lemma_tokens_circuitbuildflag()
    ensures
        forall|v: CircuitBuildFlag| #![trigger v.token()] CircuitBuildFlag::from_token(v.token()) == Some(v) && token_ok(v.token()),
{
    reveal_strlit("ONEHOP_TUNNEL");
    vstd::string::is_ascii_spec_bytes("ONEHOP_TUNNEL");
    assert("ONEHOP_TUNNEL".spec_bytes() =~= seq![79u8, 78u8, 69u8, 72u8, 79u8, 80u8, 95u8, 84u8, 85u8, 78u8, 78u8, 69u8, 76u8]);
    reveal_strlit("IS_INTERNAL");
    vstd::string::is_ascii_spec_bytes("IS_INTERNAL");
    assert("IS_INTERNAL".spec_bytes() =~= seq![73u8, 83u8, 95u8, 73u8, 78u8, 84u8, 69u8, 82u8, 78u8, 65u8, 76u8]);
    reveal_strlit("NEED_CAPACITY");
    vstd::string::is_ascii_spec_bytes("NEED_CAPACITY");
    assert("NEED_CAPACITY".spec_bytes() =~= seq![78u8, 69u8, 69u8, 68u8, 95u8, 67u8, 65u8, 80u8, 65u8, 67u8, 73u8, 84u8, 89u8]);
    reveal_strlit("NEED_UPTIME");
    vstd::string::is_ascii_spec_bytes("NEED_UPTIME");
    assert("NEED_UPTIME".spec_bytes() =~= seq![78u8, 69u8, 69u8, 68u8, 95u8, 85u8, 80u8, 84u8, 73u8, 77u8, 69u8]);
    assert forall|v: CircuitBuildFlag| #![trigger v.token()] CircuitBuildFlag::from_token(v.token()) == Some(v) && token_ok(v.token()) by {
        match v {
            CircuitBuildFlag::OneHopTunnel => {},
            CircuitBuildFlag::IsInternal => {},
            CircuitBuildFlag::NeedCapacity => {},
            CircuitBuildFlag::NeedUptime => {},
        }
    }
}

proof fn lemma_tokens_circuitpurpose()
    ensures
        forall|v: CircuitPurpose| #![trigger v.token()] CircuitPurpose::from_token(v.token()) == Some(v) && token_ok(v.token()),
{
    reveal_strlit("GENERAL");
    vstd::string::is_ascii_spec_bytes("GENERAL");
    assert("GENERAL".spec_bytes() =~= seq![71u8, 69u8, 78u8, 69u8, 82u8, 65u8, 76u8]);
    reveal_strlit("HS_CLIENT_INTRO");
    vstd::string::is_ascii_spec_bytes("HS_CLIENT_INTRO");
    assert("HS_CLIENT_INTRO".spec_bytes() =~= seq![72u8, 83u8, 95u8, 67u8, 76u8, 73u8, 69u8, 78u8, 84u8, 95u8, 73u8, 78u8, 84u8, 82u8, 79u8]);
    reveal_strlit("HS_CLIENT_REND");
    vstd::string::is_ascii_spec_bytes("HS_CLIENT_REND");
    assert("HS_CLIENT_REND".spec_bytes() =~= seq![72u8, 83u8, 95u8, 67u8, 76u8, 73u8, 69u8, 78u8, 84u8, 95u8, 82u8, 69u8, 78u8, 68u8]);
    reveal_strlit("HS_SERVICE_INTRO");
    vstd::string::is_ascii_spec_bytes("HS_SERVICE_INTRO");
    assert("HS_SERVICE_INTRO".spec_bytes() =~= seq![72u8, 83u8, 95u8, 83u8, 69u8, 82u8, 86u8, 73u8, 67u8, 69u8, 95u8, 73u8, 78u8, 84u8, 82u8, 79u8]);
    reveal_strlit("HS_SERVICE_REND");
    vstd::string::is_ascii_spec_bytes("HS_SERVICE_REND");
    assert("HS_SERVICE_REND".spec_bytes() =~= seq![72u8, 83u8, 95u8, 83u8, 69u8, 82u8, 86u8, 73u8, 67u8, 69u8, 95u8, 82u8, 69u8, 78u8, 68u8]);
    reveal_strlit("HS_CLIENT_HSDIR");
    vstd::string::is_ascii_spec_bytes("HS_CLIENT_HSDIR");
    assert("HS_CLIENT_HSDIR".spec_bytes() =~= seq![72u8, 83u8, 95u8, 67u8, 76u8, 73u8, 69u8, 78u8, 84u8, 95u8, 72u8, 83u8, 68u8, 73u8, 82u8]);
    reveal_strlit("TESTING");
    vstd::string::is_ascii_spec_bytes("TESTING");
    assert("TESTING".spec_bytes() =~= seq![84u8, 69u8, 83u8, 84u8, 73u8, 78u8, 71u8]);
    reveal_strlit("CONTROLLER");
    vstd::string::is_ascii_spec_bytes("CONTROLLER");
    assert("CONTROLLER".spec_bytes() =~= seq![67u8, 79u8, 78u8, 84u8, 82u8, 79u8, 76u8, 76u8, 69u8, 82u8]);
    reveal_strlit("MEASURE_TIMEOUT");
    vstd::string::is_ascii_spec_bytes("MEASURE_TIMEOUT");
    assert("MEASURE_TIMEOUT".spec_bytes() =~= seq![77u8, 69u8, 65u8, 83u8, 85u8, 82u8, 69u8, 95u8, 84u8, 73u8, 77u8, 69u8, 79u8, 85u8, 84u8]);
    reveal_strlit("HS_VANGUARDS");
    vstd::string::is_ascii_spec_bytes("HS_VANGUARDS");
    assert("HS_VANGUARDS".spec_bytes() =~= seq![72u8, 83u8, 95u8, 86u8, 65u8, 78u8, 71u8, 85u8, 65u8, 82u8, 68u8, 83u8]);
    reveal_strlit("PATH_BIAS_TESTING");
    vstd::string::is_ascii_spec_bytes("PATH_BIAS_TESTING");
    assert("PATH_BIAS_TESTING".spec_bytes() =~= seq![80u8, 65u8, 84u8, 72u8, 95u8, 66u8, 73u8, 65u8, 83u8, 95u8, 84u8, 69u8, 83u8, 84u8, 73u8, 78u8, 71u8]);
    reveal_strlit("CIRCUIT_PADDING");
    vstd::string::is_ascii_spec_bytes("CIRCUIT_PADDING");
    assert("CIRCUIT_PADDING".spec_bytes() =~= seq![67u8, 73u8, 82u8, 67u8, 85u8, 73u8, 84u8, 95u8, 80u8, 65u8, 68u8, 68u8, 73u8, 78u8, 71u8]);
    assert forall|v: CircuitPurpose| #![trigger v.token()] CircuitPurpose::from_token(v.token()) == Some(v) && token_ok(v.token()) by {
        match v {
            CircuitPurpose::General => {},
            CircuitPurpose::HsClientIntro => {},
            CircuitPurpose::HsClientRend => {},
            CircuitPurpose::HsServiceIntro => {},
            CircuitPurpose::HsServiceRend => {},
            CircuitPurpose::HsClientHsDir => {},
            CircuitPurpose::Testing => {},
            CircuitPurpose::Controller => {},
            CircuitPurpose::MeasureTimeout => {},
            CircuitPurpose::HsVanguards => {},
            CircuitPurpose::PathBiasTesting => {},
            CircuitPurpose::CircuitPadding => {},
        }
    }
}

proof fn lemma_tokens_hsstate()
    ensures
        forall|v: HsState| #![trigger v.token()] HsState::from_token(v.token()) == Some(v) && token_ok(v.token()),
{
    reveal_strlit("HSCI_CONNECTING");
    vstd::string::is_ascii_spec_bytes("HSCI_CONNECTING");
    assert("HSCI_CONNECTING".spec_bytes() =~= seq![72u8, 83u8, 67u8, 73u8, 95u8, 67u8, 79u8, 78u8, 78u8, 69u8, 67u8, 84u8, 73u8, 78u8, 71u8]);
    reveal_strlit("HSCI_INTROSENT");
    vstd::string::is_ascii_spec_bytes("HSCI_INTROSENT");
    assert("HSCI_INTROSENT".spec_bytes() =~= seq![72u8, 83u8, 67u8, 73u8, 95u8, 73u8, 78u8, 84u8, 82u8, 79u8, 83u8, 69u8, 78u8, 84u8]);
    reveal_strlit("HSCI_DONE");
    vstd::string::is_ascii_spec_bytes("HSCI_DONE");
    assert("HSCI_DONE".spec_bytes() =~= seq![72u8, 83u8, 67u8, 73u8, 95u8, 68u8, 79u8, 78u8, 69u8]);
    reveal_strlit("HSCR_CONNECTING");
    vstd::string::is_ascii_spec_bytes("HSCR_CONNECTING");
    assert("HSCR_CONNECTING".spec_bytes() =~= seq![72u8, 83u8, 67u8, 82u8, 95u8, 67u8, 79u8, 78u8, 78u8, 69u8, 67u8, 84u8, 73u8, 78u8, 71u8]);
    reveal_strlit("HSCR_ESTABLISHED_IDLE");
    vstd::string::is_ascii_spec_bytes("HSCR_ESTABLISHED_IDLE");
    assert("HSCR_ESTABLISHED_IDLE".spec_bytes() =~= seq![72u8, 83u8, 67u8, 82u8, 95u8, 69u8, 83u8, 84u8, 65u8, 66u8, 76u8, 73u8, 83u8, 72u8, 69u8, 68u8, 95u8, 73u8, 68u8, 76u8, 69u8]);
    reveal_strlit("HSCR_ESTABLISHED_WAITING");
    vstd::string::is_ascii_spec_bytes("HSCR_ESTABLISHED_WAITING");
    assert("HSCR_ESTABLISHED_WAITING".spec_bytes() =~= seq![72u8, 83u8, 67u8, 82u8, 95u8, 69u8, 83u8, 84u8, 65u8, 66u8, 76u8, 73u8, 83u8, 72u8, 69u8, 68u8, 95u8, 87u8, 65u8, 73u8, 84u8, 73u8, 78u8, 71u8]);
    reveal_strlit("HSCR_JOINED");
    vstd::string::is_ascii_spec_bytes("HSCR_JOINED");
    assert("HSCR_JOINED".spec_bytes() =~= seq![72u8, 83u8, 67u8, 82u8, 95u8, 74u8, 79u8, 73u8, 78u8, 69u8, 68u8]);
    reveal_strlit("HSSI_CONNECTING");
    vstd::string::is_ascii_spec_bytes("HSSI_CONNECTING");
    assert("HSSI_CONNECTING".spec_bytes() =~= seq![72u8, 83u8, 83u8, 73u8, 95u8, 67u8, 79u8, 78u8, 78u8, 69u8, 67u8, 84u8, 73u8, 78u8, 71u8]);
    reveal_strlit("HSSI_ESTABLISHED");
    vstd::string::is_ascii_spec_bytes("HSSI_ESTABLISHED");
    assert("HSSI_ESTABLISHED".spec_bytes() =~= seq![72u8, 83u8, 83u8, 73u8, 95u8, 69u8, 83u8, 84u8, 65u8, 66u8, 76u8, 73u8, 83u8, 72u8, 69u8, 68u8]);
    reveal_strlit("HSSR_CONNECTING");
    vstd::string::is_ascii_spec_bytes("HSSR_CONNECTING");
    assert("HSSR_CONNECTING".spec_bytes() =~= seq![72u8, 83u8, 83u8, 82u8, 95u8, 67u8, 79u8, 78u8, 78u8, 69u8, 67u8, 84u8, 73u8, 78u8, 71u8]);
    reveal_strlit("HSSR_JOINED");
    vstd::string::is_ascii_spec_bytes("HSSR_JOINED");
    assert("HSSR_JOINED".spec_bytes() =~= seq![72u8, 83u8, 83u8, 82u8, 95u8, 74u8, 79u8, 73u8, 78u8, 69u8, 68u8]);
    assert forall|v: HsState| #![trigger v.token()] HsState::from_token(v.token()) == Some(v) && token_ok(v.token()) by {
        match v {
            HsState::HSCIConnecting => {},
            HsState::HSCIIntroSent => {},
            HsState::HSCIDone => {},
            HsState::HSCRConnecting => {},
            HsState::HSCREstablishedIdle => {},
            HsState::HSCREstablishedWaiting => {},
            HsState::HSCRJoined => {},
            HsState::HSSIConnecting => {},
            HsState::HSSIEstablished => {},
            HsState::HSSRConnecting => {},
            HsState::HSSRJoined => {},
        }
    }
}

proof fn lemma_tokens_circuitreason()
    ensures
        forall|v: CircuitReason| #![trigger v.token()] CircuitReason::from_token(v.token()) == Some(v) && token_ok(v.token()),
{
    reveal_strlit("NONE");
    vstd::string::is_ascii_spec_bytes("NONE");
    assert("NONE".spec_bytes() =~= seq![78u8, 79u8, 78u8, 69u8]);
    reveal_strlit("TORPROTOCOL");
    vstd::string::is_ascii_spec_bytes("TORPROTOCOL");
    assert("TORPROTOCOL".spec_bytes() =~= seq![84u8, 79u8, 82u8, 80u8, 82u8, 79u8, 84u8, 79u8, 67u8, 79u8, 76u8]);
    reveal_strlit("INTERNAL");
    vstd::string::is_ascii_spec_bytes("INTERNAL");
    assert("INTERNAL".spec_bytes() =~= seq![73u8, 78u8, 84u8, 69u8, 82u8, 78u8, 65u8, 76u8]);
    reveal_strlit("REQUESTED");
    vstd::string::is_ascii_spec_bytes("REQUESTED");
    assert("REQUESTED".spec_bytes() =~= seq![82u8, 69u8, 81u8, 85u8, 69u8, 83u8, 84u8, 69u8, 68u8]);
    reveal_strlit("HIBERNATING");
    vstd::string::is_ascii_spec_bytes("HIBERNATING");
    assert("HIBERNATING".spec_bytes() =~= seq![72u8, 73u8, 66u8, 69u8, 82u8, 78u8, 65u8, 84u8, 73u8, 78u8, 71u8]);
    reveal_strlit("RESOURCELIMIT");
    vstd::string::is_ascii_spec_bytes("RESOURCELIMIT");
    assert("RESOURCELIMIT".spec_bytes() =~= seq![82u8, 69u8, 83u8, 79u8, 85u8, 82u8, 67u8, 69u8, 76u8, 73u8, 77u8, 73u8, 84u8]);
    reveal_strlit("CONNECTFAILED");
    vstd::string::is_ascii_spec_bytes("CONNECTFAILED");
    assert("CONNECTFAILED".spec_bytes() =~= seq![67u8, 79u8, 78u8, 78u8, 69u8, 67u8, 84u8, 70u8, 65u8, 73u8, 76u8, 69u8, 68u8]);
    reveal_strlit("OR_IDENTITY");
    vstd::string::is_ascii_spec_bytes("OR_IDENTITY");
    assert("OR_IDENTITY".spec_bytes() =~= seq![79u8, 82u8, 95u8, 73u8, 68u8, 69u8, 78u8, 84u8, 73u8, 84u8, 89u8]);
    reveal_strlit("OR_CONN_CLOSED");
    vstd::string::is_ascii_spec_bytes("OR_CONN_CLOSED");
    assert("OR_CONN_CLOSED".spec_bytes() =~= seq![79u8, 82u8, 95u8, 67u8, 79u8, 78u8, 78u8, 95u8, 67u8, 76u8, 79u8, 83u8, 69u8, 68u8]);
    reveal_strlit("TIMEOUT");
    vstd::string::is_ascii_spec_bytes("TIMEOUT");
    assert("TIMEOUT".spec_bytes() =~= seq![84u8, 73u8, 77u8, 69u8, 79u8, 85u8, 84u8]);
    reveal_strlit("FINISHED");
    vstd::string::is_ascii_spec_bytes("FINISHED");
    assert("FINISHED".spec_bytes() =~= seq![70u8, 73u8, 78u8, 73u8, 83u8, 72u8, 69u8, 68u8]);
    reveal_strlit("DESTROYED");
    vstd::string::is_ascii_spec_bytes("DESTROYED");
    assert("DESTROYED".spec_bytes() =~= seq![68u8, 69u8, 83u8, 84u8, 82u8, 79u8, 89u8, 69u8, 68u8]);
    reveal_strlit("NOPATH");
    vstd::string::is_ascii_spec_bytes("NOPATH");
    assert("NOPATH".spec_bytes() =~= seq![78u8, 79u8, 80u8, 65u8, 84u8, 72u8]);
    reveal_strlit("NOSUCHSERVICE");
    vstd::string::is_ascii_spec_bytes("NOSUCHSERVICE");
    assert("NOSUCHSERVICE".spec_bytes() =~= seq![78u8, 79u8, 83u8, 85u8, 67u8, 72u8, 83u8, 69u8, 82u8, 86u8, 73u8, 67u8, 69u8]);
    reveal_strlit("MEASUREMENT_EXPIRED");
    vstd::string::is_ascii_spec_bytes("MEASUREMENT_EXPIRED");
    assert("MEASUREMENT_EXPIRED".spec_bytes() =~= seq![77u8, 69u8, 65u8, 83u8, 85u8, 82u8, 69u8, 77u8, 69u8, 78u8, 84u8, 95u8, 69u8, 88u8, 80u8, 73u8, 82u8, 69u8, 68u8]);
    assert forall|v: CircuitReason| #![trigger v.token()] CircuitReason::from_token(v.token()) == Some(v) && token_ok(v.token()) by {
        match v {
            CircuitReason::NoReason => {},
            CircuitReason::TorProtocol => {},
            CircuitReason::Internal => {},
            CircuitReason::Requested => {},
            CircuitReason::Hibernating => {},
            CircuitReason::ResourceLimit => {},
            CircuitReason::ConnectFailed => {},
            CircuitReason::OrIdentity => {},
            CircuitReason::OrConnClosed => {},
            CircuitReason::Timeout => {},
            CircuitReason::Finished => {},
            CircuitReason::Destroyed => {},
            CircuitReason::Nopath => {},
            CircuitReason::Nosuchservice => {},
            CircuitReason::MeasurementExpired => {},
        }
    }
}

proof fn lemma_key_names()
    ensures
        forall|i: int| 0 <= i < 8 ==> key_index(#[trigger] key_name(i)) == i && token_ok(key_name(i)) && key_name(i)[0] != 36u8,
{
    reveal_strlit("BUILD_FLAGS");
    vstd::string::is_ascii_spec_bytes("BUILD_FLAGS");
    assert("BUILD_FLAGS".spec_bytes() =~= seq![66u8, 85u8, 73u8, 76u8, 68u8, 95u8, 70u8, 76u8, 65u8, 71u8, 83u8]);
    reveal_strlit("PURPOSE");
    vstd::string::is_ascii_spec_bytes("PURPOSE");
    assert("PURPOSE".spec_bytes() =~= seq![80u8, 85u8, 82u8, 80u8, 79u8, 83u8, 69u8]);
    reveal_strlit("HS_STATE");
    vstd::string::is_ascii_spec_bytes("HS_STATE");
    assert("HS_STATE".spec_bytes() =~= seq![72u8, 83u8, 95u8, 83u8, 84u8, 65u8, 84u8, 69u8]);
    reveal_strlit("REND_QUERY");
    vstd::string::is_ascii_spec_bytes("REND_QUERY");
    assert("REND_QUERY".spec_bytes() =~= seq![82u8, 69u8, 78u8, 68u8, 95u8, 81u8, 85u8, 69u8, 82u8, 89u8]);
    reveal_strlit("TIME_CREATED");
    vstd::string::is_ascii_spec_bytes("TIME_CREATED");
    assert("TIME_CREATED".spec_bytes() =~= seq![84u8, 73u8, 77u8, 69u8, 95u8, 67u8, 82u8, 69u8, 65u8, 84u8, 69u8, 68u8]);
    reveal_strlit("REASON");
    vstd::string::is_ascii_spec_bytes("REASON");
    assert("REASON".spec_bytes() =~= seq![82u8, 69u8, 65u8, 83u8, 79u8, 78u8]);
    reveal_strlit("SOCKS_USERNAME");
    vstd::string::is_ascii_spec_bytes("SOCKS_USERNAME");
    assert("SOCKS_USERNAME".spec_bytes() =~= seq![83u8, 79u8, 67u8, 75u8, 83u8, 95u8, 85u8, 83u8, 69u8, 82u8, 78u8, 65u8, 77u8, 69u8]);
    reveal_strlit("SOCKS_PASSWORD");
    vstd::string::is_ascii_spec_bytes("SOCKS_PASSWORD");
    assert("SOCKS_PASSWORD".spec_bytes() =~= seq![83u8, 79u8, 67u8, 75u8, 83u8, 95u8, 80u8, 65u8, 83u8, 83u8, 87u8, 79u8, 82u8, 68u8]);
    assert forall|i: int| 0 <= i < 8 implies key_index(#[trigger] key_name(i)) == i && token_ok(key_name(i)) && key_name(i)[0] != 36u8 by {
        if i == 0 {}
        if i == 1 {}
        if i == 2 {}
        if i == 3 {}
        if i == 4 {}
        if i == 5 {}
        if i == 6 {}
        if i == 7 {}
    }
}


/// A hop whose fingerprint has twenty bytes and whose nickname, if any, is valid.
pub open spec fn step_wf(st: StepView) -> bool {
    st.fingerprint.len() == 20 && match st.nickname {
        Some(n) => nickname_ok(n),
        None => true,
    }
}

proof fn lemma_step_round_trip(st: StepView)
    requires
        step_wf(st),
    ensures
        step_of(step_text(st)) == Some(st),
        step_text(st).len() >= 1,
        step_text(st)[0] == 36u8,
        lacks(step_text(st), 32u8) && lacks(step_text(st), 44u8) && lacks(step_text(st), 61u8),
{
    let w = step_text(st);
    let h = hex_upper(st.fingerprint);
    lemma_hex_upper(st.fingerprint);
    assert(w.subrange(1, 41) =~= h);
    let tail = match st.nickname {
        Some(n) => seq![126u8] + n,
        None => Seq::<u8>::empty(),
    };
    assert(w =~= seq![36u8] + h + tail);
    assert(w.subrange(41, w.len() as int) =~= tail);
    match st.nickname {
        Some(n) => {
            assert(tail.subrange(1, tail.len() as int) =~= n);
        },
        None => {},
    }
    assert forall|b: u8| b == 32u8 || b == 44u8 || b == 61u8 implies lacks(w, b) by {
        assert forall|i: int| 0 <= i < w.len() implies w[i] != b by {
            if 1 <= i < 41 {
                assert(w[i] == h[i - 1]);
                assert(is_upper_hex(h[i - 1]));
            } else if i > 41 {
                assert(w[i] == tail[i - 41]);
                assert(is_alnum(st.nickname->0[i - 42]));
            }
        }
    }
}

proof fn lemma_path_round_trip(p: Seq<StepView>)
    requires
        p.len() >= 1,
        forall|i: int| 0 <= i < p.len() ==> step_wf(#[trigger] p[i]),
    ensures
        path_of(path_text(p)) == Some(p),
        path_text(p).len() >= 1,
        path_text(p)[0] == 36u8,
        lacks(path_text(p), 32u8) && lacks(path_text(p), 61u8),
{
    let parts = p.map_values(|st: StepView| step_text(st));
    assert forall|i: int| 0 <= i < parts.len() implies lacks(#[trigger] parts[i], 44u8) && lacks(parts[i], 32u8)
        && lacks(parts[i], 61u8) && step_of(parts[i]) == Some(p[i]) by {
        lemma_step_round_trip(p[i]);
    }
    lemma_split_join(parts, seq![44u8]);
    assert(parts.map_values(|q: Seq<u8>| step_of(q)->0) =~= p);
    lemma_join_lacks(parts, seq![44u8], 32u8);
    lemma_join_lacks(parts, seq![44u8], 61u8);
    lemma_step_round_trip(p[0]);
    let j = join_front(parts, seq![44u8]);
    if parts.len() > 1 {
        assert(j =~= parts[0] + seq![44u8] + join_front(parts.drop_first(), seq![44u8]));
    }
    assert(j[0] == parts[0][0]);
}

proof fn lemma_flags_round_trip(f: Seq<CircuitBuildFlag>)
    requires
        f.len() >= 1,
    ensures
        build_flags_of(flags_text(f)) == Some(f),
        lacks(flags_text(f), 32u8) && lacks(flags_text(f), 61u8),
{
    lemma_tokens_circuitbuildflag();
    let parts = f.map_values(|x: CircuitBuildFlag| x.token());
    assert forall|i: int| 0 <= i < parts.len() implies lacks(#[trigger] parts[i], 44u8) && lacks(parts[i], 32u8)
        && lacks(parts[i], 61u8) && CircuitBuildFlag::from_token(parts[i]) == Some(f[i]) by {
        assert(parts[i] == f[i].token());
    }
    lemma_split_join(parts, seq![44u8]);
    assert(parts.map_values(|q: Seq<u8>| CircuitBuildFlag::from_token(q)->0) =~= f);
    lemma_join_lacks(parts, seq![44u8], 32u8);
    lemma_join_lacks(parts, seq![44u8], 61u8);
}

proof fn lemma_quote_round_trip(u: Seq<u8>)
    requires
        lacks(u, 32u8),
    ensures
        quoted_of(quote(u)) == Some(u),
        lacks(quote(u), 32u8),
{
    let q = quote(u);
    let e = escaped(u);
    lemma_escaped(u);
    assert(q.subrange(1, q.len() - 1) =~= e);
    assert(lacks(e, 32u8));
    assert forall|i: int| 0 <= i < q.len() implies q[i] != 32u8 by {
        if 0 < i < q.len() - 1 {
            assert(q[i] == e[i - 1]);
        }
    }
}

/// What the circuit law asks of a circuit: a valid id, valid hops, an
/// address of its version's length, times within their widths, and SOCKS
/// credentials without spaces.
#[verifier::opaque]
pub open spec fn circuit_wf(c: CircuitView) -> bool {
    &&& id_valid(c.id)
    &&& forall|i: int| 0 <= i < c.path.len() ==> step_wf(#[trigger] c.path[i])
    &&& match c.rend_query {
        Some(a) => hs_wf(a),
        None => true,
    }
    &&& match c.time_created {
        Some(t) => time_wf(t),
        None => true,
    }
    &&& match c.socks_username {
        Some(u) => lacks(u, 32u8),
        None => true,
    }
    &&& match c.socks_password {
        Some(u) => lacks(u, 32u8),
        None => true,
    }
}

/// `c0` has the id, status and path of `c`, its optional fields below rank
/// `from`, and none from `from` on.
#[verifier::opaque]
pub open spec fn agrees_below(c0: CircuitView, c: CircuitView, from: int) -> bool {
    &&& c0.id == c.id && c0.status == c.status && c0.path == c.path
    &&& if from > 0 { c0.build_flags == c.build_flags } else { c0.build_flags == Seq::<CircuitBuildFlag>::empty() }
    &&& if from > 1 { c0.purpose == c.purpose } else { c0.purpose is None }
    &&& if from > 2 { c0.hs_state == c.hs_state } else { c0.hs_state is None }
    &&& if from > 3 { c0.rend_query == c.rend_query } else { c0.rend_query is None }
    &&& if from > 4 { c0.time_created == c.time_created } else { c0.time_created is None }
    &&& if from > 5 { c0.reason == c.reason } else { c0.reason is None }
    &&& if from > 6 { c0.socks_username == c.socks_username } else { c0.socks_username is None }
    &&& if from > 7 { c0.socks_password == c.socks_password } else { c0.socks_password is None }
}

proof fn lemma_field_value(c: CircuitView, idx: int, c0: CircuitView)
    requires
        circuit_wf(c),
        0 <= idx < 8,
        field_value(c, idx) is Some,
        agrees_below(c0, c, idx),
    ensures
        with_field(c0, idx, field_value(c, idx)->0) is Some,
        agrees_below(with_field(c0, idx, field_value(c, idx)->0)->0, c, idx + 1),
        lacks(field_value(c, idx)->0, 32u8),
{
    reveal(agrees_below);
    reveal(circuit_wf);
    reveal(with_field);
    lemma_tokens_circuitpurpose();
    lemma_tokens_hsstate();
    lemma_tokens_circuitreason();
    if idx == 0 {
        lemma_flags_round_trip(c.build_flags);
    } else if idx == 3 {
        lemma_hs_round_trip(c.rend_query->0);
    } else if idx == 4 {
        lemma_time_round_trip(c.time_created->0);
    } else if idx == 6 {
        lemma_quote_round_trip(c.socks_username->0);
    } else if idx == 7 {
        lemma_quote_round_trip(c.socks_password->0);
    }
}

proof fn lemma_key_word(from: int, v: Seq<u8>)
    requires
        0 <= from < 8,
    ensures
        ({
            let key = key_name(from);
            let word = key + seq![61u8] + v;
            &&& first_occ(word, seq![61u8], 0) == key.len()
            &&& key.len() < word.len()
            &&& key_index(word.subrange(0, key.len() as int)) == from
            &&& word.subrange(key.len() as int + 1, word.len() as int) == v
            &&& word.len() >= 1 && word[0] == key[0] && key[0] != 36u8
        }),
{
    let key = key_name(from);
    let word = key + seq![61u8] + v;
    lemma_key_names();
    assert(key_index(key) == from && token_ok(key) && key[0] != 36u8);
    assert(word.subrange(key.len() as int, key.len() as int + 1) =~= seq![61u8]);
    assert forall|j: int| 0 <= j < key.len() implies !occurs_at(word, seq![61u8], j) by {
        assert(word[j] == key[j]);
        assert(word.subrange(j, j + 1)[0] == word[j]);
    }
    lemma_first_occ_is(word, seq![61u8], 0, key.len() as int);
    assert(word.subrange(0, key.len() as int) =~= key);
    assert(word.subrange(key.len() as int + 1, word.len() as int) =~= v);
}

proof fn lemma_fields_step(words: Seq<Seq<u8>>, k: int, slot: int, from: int, v: Seq<u8>, c0: CircuitView)
    requires
        0 <= slot <= from < 8,
        0 <= k < words.len(),
        words[k] == key_name(from) + seq![61u8] + v,
        with_field(c0, from, v) is Some,
    ensures
        circuit_fields(words, k, slot, c0) == circuit_fields(words, k + 1, from + 1, with_field(c0, from, v)->0),
{
    reveal(circuit_fields);
    lemma_key_word(from, v);
}

proof fn lemma_fields_end(words: Seq<Seq<u8>>, k: int, slot: int, c0: CircuitView)
    requires
        k == words.len(),
    ensures
        circuit_fields(words, k, slot, c0) == Some(c0),
{
    reveal(circuit_fields);
}

proof fn lemma_agrees_all(c0: CircuitView, c: CircuitView)
    requires
        agrees_below(c0, c, 8),
    ensures
        c0 == c,
{
    reveal(agrees_below);
}

proof fn lemma_absent_field(c: CircuitView, from: int, c0: CircuitView)
    requires
        0 <= from < 8,
        field_value(c, from) is None,
        agrees_below(c0, c, from),
    ensures
        agrees_below(c0, c, from + 1),
        fields_words(c, from) == fields_words(c, from + 1),
{
    reveal(agrees_below);
    if from == 0 {
        assert(c.build_flags =~= Seq::<CircuitBuildFlag>::empty());
    }
    assert(fields_words(c, from) =~= fields_words(c, from + 1));
}

#[verifier::rlimit(100)]
proof fn lemma_fields(c: CircuitView, words: Seq<Seq<u8>>, k: int, slot: int, from: int, c0: CircuitView)
    requires
        circuit_wf(c),
        0 <= slot <= from <= 8,
        0 <= k <= words.len(),
        words.subrange(k, words.len() as int) == fields_words(c, from),
        agrees_below(c0, c, from),
    ensures
        circuit_fields(words, k, slot, c0) == Some(c),
    decreases 8 - from,
{
    if from == 8 {
        assert(fields_words(c, 8) =~= Seq::<Seq<u8>>::empty());
        assert(k == words.len());
        lemma_fields_end(words, k, slot, c0);
        lemma_agrees_all(c0, c);
    } else {
        match field_value(c, from) {
            None => {
                lemma_absent_field(c, from, c0);
                lemma_fields(c, words, k, slot, from + 1, c0);
            },
            Some(v) => {
                let word = key_name(from) + seq![61u8] + v;
                assert(fields_words(c, from) =~= seq![word] + fields_words(c, from + 1));
                assert(words[k] == words.subrange(k, words.len() as int)[0]);
                lemma_field_value(c, from, c0);
                lemma_fields_step(words, k, slot, from, v, c0);
                let c1 = with_field(c0, from, v)->0;
                assert(words.subrange(k + 1, words.len() as int) =~= words.subrange(k, words.len() as int).drop_first());
                assert((seq![word] + fields_words(c, from + 1)).drop_first() =~= fields_words(c, from + 1));
                lemma_fields(c, words, k + 1, from + 1, from + 1, c1);
            },
        }
    }
}

proof fn lemma_fields_words(c: CircuitView, from: int)
    requires
        circuit_wf(c),
        0 <= from <= 8,
    ensures
        forall|j: int| 0 <= j < fields_words(c, from).len() ==> lacks(#[trigger] fields_words(c, from)[j], 32u8)
            && fields_words(c, from)[j].len() >= 1 && fields_words(c, from)[j][0] != 36u8,
    decreases 8 - from,
{
    if from < 8 {
        lemma_fields_words(c, from + 1);
        let rest = fields_words(c, from + 1);
        match field_value(c, from) {
            None => {
                assert(fields_words(c, from) =~= rest);
            },
            Some(v) => {
                let key = key_name(from);
                let word = key + seq![61u8] + v;
                assert(fields_words(c, from) =~= seq![word] + rest);
                lemma_key_names();
                let c0 = CircuitView {
                    build_flags: Seq::empty(),
                    purpose: None,
                    hs_state: None,
                    rend_query: None,
                    time_created: None,
                    reason: None,
                    socks_username: None,
                    socks_password: None,
                    ..c
                };
                lemma_field_value_lacks(c, from);
                assert(lacks(word, 32u8)) by {
                    assert forall|i: int| 0 <= i < word.len() implies word[i] != 32u8 by {
                        if i < key.len() {
                            assert(word[i] == key[i]);
                        } else if i > key.len() {
                            assert(word[i] == v[i - key.len() - 1]);
                        }
                    }
                }
                assert(word[0] == key[0]);
                assert forall|j: int| 0 <= j < fields_words(c, from).len() implies lacks(
                    #[trigger] fields_words(c, from)[j],
                    32u8,
                ) && fields_words(c, from)[j].len() >= 1 && fields_words(c, from)[j][0] != 36u8 by {
                    if j > 0 {
                        assert(fields_words(c, from)[j] == rest[j - 1]);
                    }
                }
            },
        }
    }
}

proof fn lemma_field_value_lacks(c: CircuitView, idx: int)
    requires
        circuit_wf(c),
        0 <= idx < 8,
        field_value(c, idx) is Some,
    ensures
        lacks(field_value(c, idx)->0, 32u8),
{
    reveal(circuit_wf);
    lemma_tokens_circuitpurpose();
    lemma_tokens_hsstate();
    lemma_tokens_circuitreason();
    if idx == 0 {
        lemma_flags_round_trip(c.build_flags);
    } else if idx == 3 {
        lemma_hs_round_trip(c.rend_query->0);
    } else if idx == 4 {
        lemma_time_round_trip(c.time_created->0);
    } else if idx == 6 {
        lemma_quote_round_trip(c.socks_username->0);
    } else if idx == 7 {
        lemma_quote_round_trip(c.socks_password->0);
    }
}

proof fn lemma_circuit_words_split(c: CircuitView)
    requires
        circuit_wf(c),
    ensures
        split_on(circuit_text(c), seq![32u8]) == circuit_words(c),
        circuit_words(c).len() >= 2,
        c.path.len() > 0 ==> circuit_words(c)[2] == path_text(c.path) && path_of(path_text(c.path))
            == Some(c.path) && path_text(c.path).len() >= 1 && path_text(c.path)[0] == 36u8,
        c.path.len() == 0 ==> circuit_words(c).subrange(2, circuit_words(c).len() as int) == fields_words(c, 0)
            && (circuit_words(c).len() >= 3 ==> circuit_words(c)[2].len() >= 1 && circuit_words(c)[2][0] != 36u8),
        c.path.len() > 0 ==> circuit_words(c).subrange(3, circuit_words(c).len() as int) == fields_words(c, 0),
{
    reveal(circuit_wf);
    lemma_tokens_circuitstatus();
    lemma_fields_words(c, 0);
    let words = circuit_words(c);
    let fw = fields_words(c, 0);
    let head: Seq<Seq<u8>> = seq![c.id, c.status.token()] + (if c.path.len() > 0 {
        seq![path_text(c.path)]
    } else {
        Seq::empty()
    });
    assert(words == head + fw);
    if c.path.len() > 0 {
        lemma_path_round_trip(c.path);
        assert(words.subrange(3, words.len() as int) =~= fw);
    } else {
        assert(words.subrange(2, words.len() as int) =~= fw);
        if words.len() >= 3 {
            assert(words[2] == fw[0]);
        }
    }
    assert(lacks(c.id, 32u8)) by {
        assert forall|i: int| 0 <= i < c.id.len() implies c.id[i] != 32u8 by {
            assert(is_alnum(c.id[i]));
        }
    }
    assert(lacks(c.status.token(), 32u8));
    assert forall|i: int| 0 <= i < words.len() implies lacks(#[trigger] words[i], 32u8) by {
        if i >= head.len() {
            assert(words[i] == fw[i - head.len()]);
        }
    }
    lemma_split_join(words, seq![32u8]);
}

/// The line of a circuit reads back as that circuit: parsing what the
/// emitter writes gives an equal record.
pub proof fn lemma_circuit_round_trip(c: CircuitView)
    requires
        circuit_wf(c),
    ensures
        circuit_of(circuit_text(c)) == Some(c),
{
    reveal(circuit_of);
    reveal(circuit_wf);
    lemma_tokens_circuitstatus();
    lemma_circuit_words_split(c);
    let words = circuit_words(c);
    let text = circuit_text(c);
    assert(words.drop_first()[0] == words[1]);
    assert(text =~= words[0] + seq![32u8] + join_front(words.drop_first(), seq![32u8]));
    assert(text[0] == c.id[0]);
    assert(is_alnum(c.id[0]));
    assert(skip_crlf(text) == text);
    let w = split_on(circuit_text(c), seq![32u8]);
    assert(w[1] == c.status.token());
    let base = CircuitView {
        id: w[0],
        status: CircuitStatus::from_token(w[1])->0,
        path: Seq::empty(),
        build_flags: Seq::empty(),
        purpose: None,
        hs_state: None,
        rend_query: None,
        time_created: None,
        reason: None,
        socks_username: None,
        socks_password: None,
    };
    reveal(agrees_below);
    if c.path.len() > 0 {
        let c0 = CircuitView { path: c.path, ..base };
        assert(agrees_below(c0, c, 0));
        lemma_fields(c, words, 3, 0, 0, c0);
    } else {
        assert(c.path =~= Seq::<StepView>::empty());
        assert(agrees_below(base, c, 0));
        lemma_fields(c, words, 2, 0, 0, base);
    }
}


/// What a parsed circuit satisfies: all of the circuit law's precondition
/// but the codec's reading back of the rendezvous address.
pub open spec fn parsed_wf(c: CircuitView) -> bool {
    &&& id_valid(c.id)
    &&& forall|i: int| 0 <= i < c.path.len() ==> step_wf(#[trigger] c.path[i])
    &&& match c.rend_query {
        Some(HsAddressView::V2(b)) => b.len() == 10,
        Some(HsAddressView::V3(b)) => b.len() == 35,
        None => true,
    }
    &&& match c.time_created {
        Some(t) => time_wf(t),
        None => true,
    }
    &&& match c.socks_username {
        Some(u) => lacks(u, 32u8),
        None => true,
    }
    &&& match c.socks_password {
        Some(u) => lacks(u, 32u8),
        None => true,
    }
}

proof fn lemma_quoted_lacks(v: Seq<u8>)
    requires
        quoted_of(v) is Some,
        lacks(v, 32u8),
    ensures
        lacks(quoted_of(v)->0, 32u8),
{
    let inner = v.subrange(1, v.len() - 1);
    assert forall|i: int| 0 <= i < inner.len() implies inner[i] != 32u8 by {
        assert(inner[i] == v[i + 1]);
    }
    lemma_unescaped_lacks(inner, 32u8);
}

proof fn lemma_with_field_parsed(c0: CircuitView, idx: int, val: Seq<u8>)
    requires
        parsed_wf(c0),
        lacks(val, 32u8),
        with_field(c0, idx, val) is Some,
    ensures
        parsed_wf(with_field(c0, idx, val)->0),
{
    reveal(with_field);
    if idx == 4 {
        lemma_time_parsed_wf(val);
    } else if idx == 6 || idx == 7 {
        lemma_quoted_lacks(val);
    }
}

proof fn lemma_fields_parsed(words: Seq<Seq<u8>>, i: int, slot: int, c0: CircuitView, c: CircuitView)
    requires
        0 <= i,
        forall|k: int| 0 <= k < words.len() ==> lacks(#[trigger] words[k], 32u8),
        circuit_fields(words, i, slot, c0) == Some(c),
        parsed_wf(c0),
    ensures
        parsed_wf(c),
    decreases words.len() - i,
{
    reveal(circuit_fields);
    if i < words.len() {
        let w = words[i];
        let k = first_occ(w, seq![61u8], 0);
        let idx = key_index(w.subrange(0, k));
        let val = w.subrange(k + 1, w.len() as int);
        lemma_first_occ_range(w, seq![61u8], 0);
        assert(0 <= k < w.len());
        assert(lacks(w, 32u8));
        assert forall|j: int| 0 <= j < val.len() implies val[j] != 32u8 by {
            assert(val[j] == w[j + k + 1]);
        }
        lemma_with_field_parsed(c0, idx, val);
        lemma_fields_parsed(words, i + 1, idx + 1, with_field(c0, idx, val)->0, c);
    }
}

proof fn lemma_step_parsed(w: Seq<u8>)
    requires
        step_of(w) is Some,
    ensures
        step_wf(step_of(w)->0),
{
}

/// A parsed circuit satisfies the circuit law's precondition, but for the
/// codec's reading back of its rendezvous address.
pub proof fn lemma_parsed_circuit_wf(line: Seq<u8>)
    requires
        circuit_of(line) is Some,
    ensures
        parsed_wf(circuit_of(line)->0),
{
    reveal(circuit_of);
    let w = split_on(skip_crlf(line), seq![32u8]);
    lemma_split_pieces_lack(skip_crlf(line), 32u8, 0);
    let base = CircuitView {
        id: w[0],
        status: CircuitStatus::from_token(w[1])->0,
        path: Seq::empty(),
        build_flags: Seq::empty(),
        purpose: None,
        hs_state: None,
        rend_query: None,
        time_created: None,
        reason: None,
        socks_username: None,
        socks_password: None,
    };
    if w.len() >= 3 && w[2].len() > 0 && w[2][0] == 36u8 {
        let p = path_of(w[2])->0;
        let parts = split_on(w[2], seq![44u8]);
        assert forall|i: int| 0 <= i < p.len() implies step_wf(#[trigger] p[i]) by {
            assert(step_of(parts[i]) is Some);
            lemma_step_parsed(parts[i]);
        }
        lemma_fields_parsed(w, 3, 0, CircuitView { path: p, ..base }, circuit_of(line)->0);
    } else {
        lemma_fields_parsed(w, 2, 0, base, circuit_of(line)->0);
    }
}

/// A circuit read from a line is read back from the line the emitter writes
/// for it: parsing is idempotent. The codec's reading back of a rendezvous
/// address, which `HsAddress::to_text` establishes whenever it runs, is the
/// one condition.
pub proof fn lemma_parsed_circuit_round_trip(line: Seq<u8>)
    requires
        circuit_of(line) is Some,
        match circuit_of(line)->0.rend_query {
            Some(HsAddressView::V2(b)) => base32_round_trips(b),
            Some(HsAddressView::V3(b)) => base32_round_trips(b),
            None => true,
        },
    ensures
        circuit_of(circuit_text(circuit_of(line)->0)) == circuit_of(line),
{
    let c = circuit_of(line)->0;
    lemma_parsed_circuit_wf(line);
    reveal(circuit_wf);
    assert(circuit_wf(c));
    lemma_circuit_round_trip(c);
}

} // verus!
