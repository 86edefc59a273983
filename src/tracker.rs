//! The tracker protocol: the announce query and the tracker's answer.
use crate::agent::Agent;
use crate::decode::{decode, spec_decode};
use crate::error::{AgentError, BencodeError, TrackerError, TrackerErrorModel};
use crate::peer::{peer_spec, Peer};
use crate::text::{nat_text, push_decimal};
use crate::torrent::{lookup_int, Torrent};
use crate::value::{all_dicts, dict_lookup, BValue, ByteString, Dictionary, Integer};
use vstd::prelude::*;
use vstd::string::{StringExecFns, StringSliceAdditionalSpecFns};

verus! {

/// Bytes that percent-encoding leaves as they are: ASCII letters, digits and
/// `-`, `.`, `_`, `~`.
pub open spec fn is_unreserved(b: u8) -> bool {
    (48 <= b <= 57) || (65 <= b <= 90) || (97 <= b <= 122) || b == 45 || b == 46 || b == 95 || b == 126
}

/// An upper-case hexadecimal digit.
pub open spec fn hex_digit(d: u8) -> char {
    if d < 10 {
        ((d + 48) as u8) as char
    } else {
        ((d + 55) as u8) as char
    }
}

/// Percent-encoding of raw bytes: unreserved bytes as themselves, every other
/// byte as `%` and two upper-case hexadecimal digits.
pub open spec fn percent_encoded(b: Seq<u8>) -> Seq<char>
    decreases b.len(),
{
    if b.len() == 0 {
        Seq::empty()
    } else {
        let x = b.last();
        percent_encoded(b.drop_last()) + if is_unreserved(x) {
            seq![x as char]
        } else {
            seq!['%', hex_digit(x / 16), hex_digit(x % 16)]
        }
    }
}

/// Relies on `urlencoding::encode_binary`: every byte except ASCII letters,
/// digits and `-`, `.`, `_`, `~` becomes `%` followed by its two upper-case
/// hexadecimal digits; the others are kept.
#[verifier::external_body]
fn percent_encode(data: &[u8]) -> (r: String)
    ensures
        r@ == percent_encoded(data@),
{
    urlencoding::encode_binary(data).into_owned()
}

/// An ASCII letter or digit.
pub open spec fn is_alphanumeric(b: u8) -> bool {
    (48 <= b <= 57) || (65 <= b <= 90) || (97 <= b <= 122)
}

/// Relies on rand's `Alphanumeric` distribution, sampled from `thread_rng`:
/// `n` bytes, each an ASCII letter or digit.
#[verifier::external_body]
fn random_alphanumeric(n: usize) -> (r: Vec<u8>)
    ensures
        r@.len() == n,
        forall|i: int| 0 <= i < n ==> is_alphanumeric(#[trigger] r@[i]),
{
    rand::distributions::Distribution::sample_iter(rand::distributions::Alphanumeric, rand::thread_rng()).take(n).collect()
}

/// A fresh peer id for a session: 20 random ASCII letters and digits.
pub fn generate_peer_id() -> (r: Vec<u8>)
    ensures
        r@.len() == 20,
        forall|i: int| 0 <= i < 20 ==> is_alphanumeric(#[trigger] r@[i]),
{
    random_alphanumeric(20)
}

/// The query of an announce: `info_hash`, `peer_id`, `port`, `uploaded`,
/// `downloaded` and `left`, each percent-encoded.
pub open spec fn query_of(
    info_hash: Seq<u8>,
    peer_id: Seq<u8>,
    port: nat,
    uploaded: nat,
    downloaded: nat,
    left: nat,
) -> Seq<char> {
    "info_hash="@ + percent_encoded(info_hash) + "&peer_id="@ + percent_encoded(peer_id) + "&port="@
        + percent_encoded(nat_text(port)) + "&uploaded="@ + percent_encoded(nat_text(uploaded))
        + "&downloaded="@ + percent_encoded(nat_text(downloaded)) + "&left="@ + percent_encoded(
        nat_text(left),
    )
}

/// Tracker GET request.
#[derive(Debug)]
pub struct TrackerRequest {
    /// Tracker URL.
    pub announce: String,
    /// Torrent info hash.
    pub info_hash: Vec<u8>,
    /// Peer id of this session (raw bytes).
    pub peer_id: Vec<u8>,
    /// Optional peer ip.
    pub ip: Option<String>,
    /// Port peer is listening at.
    pub port: u16,
    /// Total amount uploaded.
    pub uploaded: usize,
    /// Total amount downloaded.
    pub downloaded: usize,
    /// Total amount left.
    pub left: usize,
    /// Optional status.
    pub event: Option<String>,
}

fn copy_bytes(data: &[u8]) -> (r: Vec<u8>)
    ensures
        r@ == data@,
{
    let mut out: Vec<u8> = Vec::new();
    let mut i: usize = 0;
    while i < data.len()
        invariant
            i <= data@.len(),
            out@ == data@.subrange(0, i as int),
        decreases data@.len() - i,
    {
        out.push(data[i]);
        i = i + 1;
        assert(out@ =~= data@.subrange(0, i as int));
    }
    assert(data@.subrange(0, i as int) =~= data@);
    out
}

fn encode_number(n: usize) -> (r: String)
    ensures
        r@ == percent_encoded(nat_text(n as nat)),
{
    let mut digits: Vec<u8> = Vec::new();
    push_decimal(n as u64, &mut digits);
    assert(digits@ =~= nat_text(n as nat));
    percent_encode(digits.as_slice())
}

impl TrackerRequest {
    /// Create a [`TrackerRequest`] for a registered `torrent`, its [`Agent`] and
    /// the session's peer `id`.
    pub fn with(torrent: &Torrent, agent: &Agent, id: &[u8]) -> (r: Result<Self, AgentError>)
        ensures
            agent.lookup(torrent.model().info_hash) is None ==> r == Err::<Self, AgentError>(AgentError::FileNotFound),
            agent.lookup(torrent.model().info_hash) is Some ==> r is Ok && {
                let q = r->Ok_0;
                &&& q.announce@ == torrent.model().announce
                &&& q.info_hash@ == torrent.model().info_hash
                &&& q.peer_id@ == id@
                &&& q.port == agent.spec_port()
                &&& q.uploaded == 0
                &&& q.downloaded == 0
                &&& q.left == agent.lookup(torrent.model().info_hash)->0.spec_length()
                &&& q.ip is None
                &&& q.event is None
            },
    {
        let file = match agent.get_file(torrent.get_hash()) {
            Ok(f) => f,
            Err(e) => return Err(e),
        };
        Ok(
            Self {
                announce: torrent.announce_url(),
                info_hash: copy_bytes(torrent.get_hash()),
                peer_id: copy_bytes(id),
                ip: None,
                port: agent.get_port(),
                uploaded: file.get_uploaded(),
                downloaded: file.get_downloaded(),
                left: file.get_left(),
                event: None,
            },
        )
    }

    /// Create a [`TrackerRequest`] with a fresh random peer id.
    pub fn from_torrent(torrent: &Torrent, agent: &Agent) -> (r: Result<Self, AgentError>)
        ensures
            agent.lookup(torrent.model().info_hash) is None ==> r == Err::<Self, AgentError>(AgentError::FileNotFound),
            agent.lookup(torrent.model().info_hash) is Some ==> r is Ok && {
                let q = r->Ok_0;
                &&& q.announce@ == torrent.model().announce
                &&& q.info_hash@ == torrent.model().info_hash
                &&& q.peer_id@.len() == 20
                &&& forall|i: int| 0 <= i < 20 ==> is_alphanumeric(#[trigger] q.peer_id@[i])
                &&& q.port == agent.spec_port()
                &&& q.uploaded == 0
                &&& q.downloaded == 0
                &&& q.left == agent.lookup(torrent.model().info_hash)->0.spec_length()
                &&& q.ip is None
                &&& q.event is None
            },
    {
        let id = generate_peer_id();
        Self::with(torrent, agent, id.as_slice())
    }

    /// The request's query string.
    pub fn as_url_params(&self) -> (r: String)
        ensures
            r@ == query_of(
                self.info_hash@,
                self.peer_id@,
                self.port as nat,
                self.uploaded as nat,
                self.downloaded as nat,
                self.left as nat,
            ),
    {
        let mut out = String::new();
        out.append("info_hash=");
        out.append(percent_encode(self.info_hash.as_slice()).as_str());
        out.append("&peer_id=");
        out.append(percent_encode(self.peer_id.as_slice()).as_str());
        out.append("&port=");
        out.append(encode_number(self.port as usize).as_str());
        out.append("&uploaded=");
        out.append(encode_number(self.uploaded).as_str());
        out.append("&downloaded=");
        out.append(encode_number(self.downloaded).as_str());
        out.append("&left=");
        out.append(encode_number(self.left).as_str());
        assert(out@ =~= query_of(
            self.info_hash@,
            self.peer_id@,
            self.port as nat,
            self.uploaded as nat,
            self.downloaded as nat,
            self.left as nat,
        ));
        out
    }

    /// The full announce URL: the tracker URL, `?`, and the query.
    pub fn url(&self) -> (r: String)
        ensures
            r@ == self.announce@ + "?"@ + query_of(
                self.info_hash@,
                self.peer_id@,
                self.port as nat,
                self.uploaded as nat,
                self.downloaded as nat,
                self.left as nat,
            ),
    {
        let mut out = self.announce.clone();
        out.append("?");
        out.append(self.as_url_params().as_str());
        out
    }
}

/// A torrent tracker.
#[derive(Debug)]
pub struct Tracker {}

impl Tracker {
    /// Create a [`TrackerRequest`] for a `torrent` and its `agent`.
    pub fn create_request(torrent: &Torrent, agent: &Agent, id: &[u8]) -> (r: Result<TrackerRequest, AgentError>)
        ensures
            agent.lookup(torrent.model().info_hash) is None ==> r == Err::<TrackerRequest, AgentError>(AgentError::FileNotFound),
            agent.lookup(torrent.model().info_hash) is Some ==> r is Ok && {
                let q = r->Ok_0;
                &&& q.announce@ == torrent.model().announce
                &&& q.info_hash@ == torrent.model().info_hash
                &&& q.peer_id@ == id@
                &&& q.port == agent.spec_port()
                &&& q.uploaded == 0
                &&& q.downloaded == 0
                &&& q.left == agent.lookup(torrent.model().info_hash)->0.spec_length()
                &&& q.ip is None
                &&& q.event is None
            },
    {
        TrackerRequest::with(torrent, agent, id)
    }
}

/// The peers of a tracker answer, in order; the first bad entry decides the
/// error (one malformed entry rejects the whole answer).
pub open spec fn peers_spec(l: Seq<BValue>) -> Result<Seq<(Seq<u8>, Seq<u8>, u16)>, TrackerErrorModel>
    decreases l.len(),
{
    if l.len() == 0 {
        Ok(Seq::empty())
    } else {
        match peers_spec(l.drop_last()) {
            Err(e) => Err(e),
            Ok(ps) => match peer_spec(l.last()->Dict_0) {
                Err(e) => Err(e),
                Ok(p) => Ok(ps.push(p)),
            },
        }
    }
}

/// What [`TrackerResponse::from_bytes`] makes of an answer: a `failure reason`
/// wins; otherwise a non-negative `interval` and a list of peer dictionaries.
pub open spec fn response_spec(contents: Seq<u8>) -> Result<(nat, Seq<(Seq<u8>, Seq<u8>, u16)>), TrackerErrorModel> {
    match spec_decode(contents) {
        None => Err(TrackerErrorModel::Bencode(BencodeError::Malformed)),
        Some(BValue::Dict(d)) => match dict_lookup(d, "failure reason".spec_bytes()) {
            Some(BValue::Bytes(reason)) => Err(TrackerErrorModel::Failure(reason)),
            _ => match lookup_int(d, "interval".spec_bytes()) {
                Err(e) => Err(TrackerErrorModel::Bencode(e)),
                Ok(interval) => if interval < 0 {
                    Err(TrackerErrorModel::InvalidInterval)
                } else {
                    match dict_lookup(d, "peers".spec_bytes()) {
                        None => Err(TrackerErrorModel::Bencode(BencodeError::MissingKey)),
                        Some(BValue::List(l)) => if all_dicts(l) {
                            match peers_spec(l) {
                                Err(e) => Err(e),
                                Ok(ps) => Ok((interval as nat, ps)),
                            }
                        } else {
                            Err(TrackerErrorModel::Bencode(BencodeError::WrongType))
                        },
                        Some(_) => Err(TrackerErrorModel::Bencode(BencodeError::WrongType)),
                    }
                },
            },
        },
        Some(_) => Err(TrackerErrorModel::Bencode(BencodeError::WrongType)),
    }
}

/// Tracker response.
#[derive(Debug)]
pub struct TrackerResponse {
    /// Number of seconds to wait between regular rerequests.
    interval: usize,
    /// List of peers.
    peers: Vec<Peer>,
}

impl TrackerResponse {
    /// The interval and each peer's id, ip and port.
    pub closed spec fn model(&self) -> (nat, Seq<(Seq<u8>, Seq<u8>, u16)>) {
        (
            self.interval as nat,
            self.peers@.map_values(|p: Peer| (p.spec_id(), p.spec_ip(), p.spec_port())),
        )
    }

    /// Create [`TrackerResponse`] from bytes.
    pub fn from_bytes(contents: &[u8]) -> (r: Result<Self, TrackerError>)
        ensures
            match response_spec(contents@) {
                Ok(m) => r is Ok && r->Ok_0.model() == m,
                Err(e) => r is Err && r->Err_0@ == e,
            },
    {
        let dict = match decode(contents) {
            Ok(v) => match v.try_as::<Dictionary>() {
                Ok(d) => d,
                Err(e) => return Err(TrackerError::Bencode(e)),
            },
            Err(e) => return Err(TrackerError::Bencode(e)),
        };
        if let Ok(failure_reason) = dict.try_get_as::<ByteString>("failure reason") {
            return Err(TrackerError::Failure(failure_reason.0));
        }
        let interval = match dict.try_get_as::<Integer>("interval") {
            Ok(v) => v.0,
            Err(e) => return Err(TrackerError::Bencode(e)),
        };
        if interval < 0 {
            return Err(TrackerError::InvalidInterval);
        }
        let entries = match dict.try_get("peers") {
            Ok(v) => match v.as_list_of_dictionaries() {
                Ok(entries) => entries,
                Err(e) => return Err(TrackerError::Bencode(e)),
            },
            Err(e) => return Err(TrackerError::Bencode(e)),
        };
        let ghost l = dict_lookup(dict@, "peers".spec_bytes())->0->List_0;
        let mut peers: Vec<Peer> = Vec::new();
        let mut i: usize = 0;
        assert(l.subrange(0, 0) =~= Seq::<BValue>::empty());
        assert(peers@.map_values(|p: Peer| (p.spec_id(), p.spec_ip(), p.spec_port())) =~= Seq::<(Seq<u8>, Seq<u8>, u16)>::empty());
        let ghost spec_result = response_spec(contents@);
        assert(spec_result == match peers_spec(l) {
            Err(e) => Err(e),
            Ok(ps) => Ok::<(nat, Seq<(Seq<u8>, Seq<u8>, u16)>), TrackerErrorModel>((interval as nat, ps)),
        });
        while i < entries.len()
            invariant
                i <= entries@.len(),
                entries@.len() == l.len(),
                forall|j: int| 0 <= j < l.len() ==> (#[trigger] entries@[j])@ == l[j]->Dict_0,
                spec_result == response_spec(contents@),
                spec_result == match peers_spec(l) {
                    Err(e) => Err(e),
                    Ok(ps) => Ok::<(nat, Seq<(Seq<u8>, Seq<u8>, u16)>), TrackerErrorModel>((interval as nat, ps)),
                },
                interval >= 0,
                peers@.len() == i,
                peers_spec(l.subrange(0, i as int)) == Ok::<Seq<(Seq<u8>, Seq<u8>, u16)>, TrackerErrorModel>(
                    peers@.map_values(|p: Peer| (p.spec_id(), p.spec_ip(), p.spec_port())),
                ),
            decreases entries@.len() - i,
        {
            assert(l.subrange(0, i + 1).drop_last() =~= l.subrange(0, i as int));
            assert(l.subrange(0, i + 1).last() == l[i as int]);
            let peer = match Peer::from_dictionary(&entries[i]) {
                Ok(p) => p,
                Err(e) => {
                    proof {
                        assert(peers_spec(l.subrange(0, i + 1)) == Err::<Seq<(Seq<u8>, Seq<u8>, u16)>, TrackerErrorModel>(e@));
                        lemma_peers_error_persists(l, i as int + 1);
                    }
                    return Err(e);
                },
            };
            let ghost old_models = peers@.map_values(|p: Peer| (p.spec_id(), p.spec_ip(), p.spec_port()));
            let ghost old_peers = peers@;
            let ghost pm = (peer.spec_id(), peer.spec_ip(), peer.spec_port());
            peers.push(peer);
            proof {
                assert(peers@ == old_peers.push(peers@[i as int]));
                assert(peers@.map_values(|p: Peer| (p.spec_id(), p.spec_ip(), p.spec_port())) =~= old_models.push(pm));
            }
            i = i + 1;
        }
        assert(l.subrange(0, i as int) =~= l);
        Ok(TrackerResponse { interval: interval as usize, peers })
    }

    /// Seconds until the next announce.
    pub fn interval(&self) -> (r: usize)
        ensures
            r == self.model().0,
    {
        self.interval
    }

    /// The peers, in the tracker's order.
    pub fn peers(&self) -> (r: &Vec<Peer>)
        ensures
            r@.map_values(|p: Peer| (p.spec_id(), p.spec_ip(), p.spec_port())) == self.model().1,
    {
        &self.peers
    }

    /// Hand over the peers.
    pub fn into_peers(self) -> (r: Vec<Peer>)
        ensures
            r@.map_values(|p: Peer| (p.spec_id(), p.spec_ip(), p.spec_port())) == self.model().1,
    {
        self.peers
    }
}

proof fn lemma_peers_error_persists(l: Seq<BValue>, k: int)
    requires
        0 <= k <= l.len(),
        peers_spec(l.subrange(0, k)) is Err,
    ensures
        peers_spec(l) == peers_spec(l.subrange(0, k)),
    decreases l.len() - k,
{
    if k < l.len() {
        assert(l.subrange(0, k + 1).drop_last() =~= l.subrange(0, k));
        lemma_peers_error_persists(l, k + 1);
    } else {
        assert(l.subrange(0, k) =~= l);
    }
}

} // verus!
