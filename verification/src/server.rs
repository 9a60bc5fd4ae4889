//! The replica orchestrator: one endpoint multiplexes election requests,
//! status beacons, gossip, directory fetches, sample mirroring and access
//! control, while a failure endpoint can take the replica down for thirty
//! seconds. Each handler is a pure decision: it updates the replica's
//! state and says which datagrams to send and which files to touch; the
//! sockets and the disk are driven outside the library.

use vstd::prelude::*;

use crate::bytes::is_prefix;
use crate::codec::CodecError;
use crate::codec::ImageBuf;
use crate::codec::encode_capacity_ok;
use crate::codec::png_encoded_opt;
use crate::codec::rgba_decoded;
use crate::codec::stego_model;
use crate::codec::stego_encode;
use crate::directory::Directory;
use crate::directory::RecordModel;
use crate::directory::dir_apply;
use crate::directory::dir_changes;
use crate::directory::dos_csv;
use crate::directory::find_owner;
use crate::election::Ballot;
use crate::election::FailWindow;
use crate::election::elected;
use crate::election::decide_election;
use crate::messages::ServerMsg;
use crate::messages::classify_server;
use crate::messages::status_json;
use crate::messages::is_status_json;
use crate::messages::request_dos_lit;
use crate::messages::end_samples_lit;
use crate::messages::sample_upload_prefix;
use crate::messages::sample_sync_prefix;
use crate::messages::access_control_prefix;
use crate::messages::dos_prefix;
use crate::messages::control_update_prefix;
use crate::bytes::split_spec;
use crate::messages::lemma_status_json_injective;
use crate::messages::quote_free;
use crate::messages::status_prefix;
use crate::messages::dir_of_serv_prefix;
use crate::messages::fail_lit;
use crate::messages::elect_lit;
use crate::messages::tagged;
use crate::messages::format_status_ack;
use crate::messages::format_dir_of_serv;
use crate::messages::format_dos;
use crate::messages::format_leader_ack;
use crate::messages::format_control_update;
use crate::messages::parse_status_json;
use crate::messages::status_ack_prefix;
use crate::messages::leader_ack_prefix;
use crate::transport::build_frames;
use crate::transport::num_chunks;
use crate::transport::data_frame;
use crate::transport::end_frame;

verus! {

/// The view budget a leader embeds into every stego artifact it serves.
pub const DEFAULT_VIEW_BUDGET: u32 = 5;

/// What a replica decides to do in response to one datagram; the caller
/// performs the sends and the file writes.
pub enum Action {
    /// Send one datagram.
    Send { to: Vec<u8>, data: Vec<u8> },
    /// Persist the directory file with this content.
    WriteDosFile { content: Vec<u8> },
    /// Broadcast ballots, collect responses for the window, then decide
    /// with [`finish_election`] and answer `reply_to`.
    StartElection { reply_to: Vec<u8> },
    /// A sample announcement: store the raw frame that follows under
    /// `samples/<owner>/<name>`. Only a datagram from `from` — the
    /// announcing sender — may be taken as that frame; others are ignored.
    StoreSample { owner: Vec<u8>, name: Vec<u8>, from: Vec<u8> },
    /// Walk the local sample store and stream it to `to`, closed by
    /// `SAMPLES_DONE` (or `NO_SAMPLES` where none exist).
    ServeSamples { to: Vec<u8> },
    /// The sender of an online beacon will follow up with sample uploads.
    ExpectSamples { owner: Vec<u8>, from: Vec<u8> },
}

/// The actions one status record yields: the file write and the gossip
/// to every peer when the record changed the file, the acknowledgment to
/// the source for a beacon (not for gossip), and the sample session for
/// an online beacon.
pub open spec fn status_actions(
    actions: Seq<Action>,
    pre: Seq<RecordModel>,
    r: RecordModel,
    self_endpoint: Seq<u8>,
    peers: Seq<Seq<u8>>,
    source: Seq<u8>,
    from_gossip: bool,
) -> bool {
    let changed = dir_changes(pre, r);
    let write_count: int = if changed {
        1int
    } else {
        0int
    };
    let ack_count: int = if from_gossip {
        0int
    } else {
        1int
    };
    let gossip_count: int = if changed {
        peers.len() as int
    } else {
        0int
    };
    let expect_count: int = if !from_gossip && r.online {
        1int
    } else {
        0int
    };
    &&& actions.len() == write_count + ack_count + gossip_count + expect_count
    &&& (changed ==> (actions[0] matches Action::WriteDosFile { content } && content@ == dos_csv(
        dir_apply(pre, r),
    )))
    &&& (!from_gossip ==> (actions[write_count] matches Action::Send { to, data } && to@ == source
        && data@ == tagged(status_ack_prefix(), self_endpoint)))
    &&& (changed ==> forall|j: int|
        0 <= j < peers.len() ==> ((#[trigger] actions[write_count + ack_count + j])
            matches Action::Send { to, data } && to@ == peers[j] && data@ == tagged(
            dir_of_serv_prefix(),
            status_json(r.endpoint, r.online, r.owner),
        )))
    &&& (expect_count == 1 ==> (actions[actions.len() - 1] matches Action::ExpectSamples {
        owner: o,
        from,
    } && o@ == r.owner && from@ == source))
}

/// One replica's state: its directory copy and its failure window.
pub struct ServerNode {
    pub dir: Directory,
    pub fail: FailWindow,
}

impl ServerNode {
    /// A fresh replica with an empty directory.
    pub fn new() -> (r: ServerNode)
        ensures
            r.dir@ == Seq::<RecordModel>::empty(),
            r.dir.wf(),
            r.fail.down_until == 0,
    {
        ServerNode { dir: Directory::new(), fail: FailWindow::new() }
    }

    /// Apply one status record (from a beacon or from gossip): update the
    /// directory by the local rule and say what to send on.
    ///
    /// A record that changed the file is persisted and gossiped to every
    /// peer; a beacon is acknowledged either way; an online beacon opens a
    /// sample session. A record learned from gossip is itself passed on
    /// when it changed the file: re-delivery is harmless by idempotence,
    /// and the chain stops at replicas that already hold the record.
    pub fn apply_record(
        &mut self,
        self_endpoint: &Vec<u8>,
        peers: &Vec<Vec<u8>>,
        endpoint: &Vec<u8>,
        owner: &Vec<u8>,
        online: bool,
        source: &Vec<u8>,
        from_gossip: bool,
    ) -> (actions: Vec<Action>)
        requires
            old(self).dir.wf(),
        ensures
            final(self).dir@ == dir_apply(
                old(self).dir@,
                RecordModel { endpoint: endpoint@, owner: owner@, online },
            ),
            final(self).dir.wf(),
            final(self).fail == old(self).fail,
            status_actions(
                actions@,
                old(self).dir@,
                RecordModel { endpoint: endpoint@, owner: owner@, online },
                self_endpoint@,
                peers@.map_values(|p: Vec<u8>| p@),
                source@,
                from_gossip,
            ),
    {
        let mut actions: Vec<Action> = Vec::new();
        let changed = self.dir.apply_status(endpoint, owner, online);
        if changed {
            let content = self.dir.to_csv();
            actions.push(Action::WriteDosFile { content });
            assert(actions@[0] matches Action::WriteDosFile { content: c } && c@ == dos_csv(
                self.dir@,
            ));
        }
        if !from_gossip {
            let ack = format_status_ack(self_endpoint.as_slice());
            actions.push(Action::Send { to: source.clone(), data: ack });
            assert(actions@[actions@.len() - 1] matches Action::Send { to, data } && to@ == source@
                && data@ == tagged(status_ack_prefix(), self_endpoint@));
        }
        let ghost base = actions@.len() as int;
        let ghost pre = actions@;
        proof {
            if changed {
                assert(pre[0] matches Action::WriteDosFile { content: c } && c@ == dos_csv(
                    self.dir@,
                ));
            }
            if !from_gossip {
                let wc: int = if changed { 1int } else { 0int };
                assert(pre[wc] matches Action::Send { to, data } && to@ == source@ && data@
                    == tagged(status_ack_prefix(), self_endpoint@));
            }
        }
        if changed {
            let mut j: usize = 0;
            while j < peers.len()
                invariant
                    j <= peers@.len(),
                    pre.len() == base,
                    actions@.len() == base + j,
                    actions@.take(base) == pre,
                    forall|k: int|
                        0 <= k < j ==> ((#[trigger] actions@[base + k]) matches Action::Send {
                            to,
                            data,
                        } && to@ == peers@[k]@ && data@ == tagged(
                            dir_of_serv_prefix(),
                            status_json(endpoint@, online, owner@),
                        )),
                decreases peers@.len() - j,
            {
                let frame = format_dir_of_serv(
                    endpoint.as_slice(),
                    online,
                    owner.as_slice(),
                );
                actions.push(Action::Send { to: peers[j].clone(), data: frame });
                proof {
                    assert(actions@.take(base) =~= pre);
                }
                j = j + 1;
            }
        }
        proof {
            assert(actions@.take(base) =~= pre);
            assert forall|k: int| 0 <= k < base implies actions@[k] == pre[k] by {
                assert(actions@.take(base)[k] == actions@[k]);
            }
        }
        if !from_gossip && online {
            actions.push(Action::ExpectSamples { owner: owner.clone(), from: source.clone() });
        }
        proof {
            let r = RecordModel { endpoint: endpoint@, owner: owner@, online };
            let ch = dir_changes(old(self).dir@, r);
            assert(changed == ch);
            let write_count: int = if ch { 1int } else { 0int };
            let ack_count: int = if from_gossip { 0int } else { 1int };
            let gossip_count: int = if ch { peers@.len() as int } else { 0int };
            let expect_count: int = if !from_gossip && online { 1int } else { 0int };
            assert(actions@.len() == write_count + ack_count + gossip_count + expect_count);
            assert(ch ==> (actions@[0] matches Action::WriteDosFile { content } && content@
                == dos_csv(self.dir@)));
            assert(!from_gossip ==> (actions@[write_count] matches Action::Send { to, data }
                && to@ == source@ && data@ == tagged(status_ack_prefix(), self_endpoint@)));
            assert(ch ==> forall|j: int|
                0 <= j < peers@.len() ==> ((#[trigger] actions@[write_count + ack_count + j])
                    matches Action::Send { to, data } && to@ == peers@[j]@ && data@ == tagged(
                    dir_of_serv_prefix(),
                    status_json(endpoint@, online, owner@),
                )));
            assert(expect_count == 1 ==> (actions@[actions@.len() - 1]
                matches Action::ExpectSamples { owner: o, from } && o@ == owner@ && from@
                == source@));
            let peers_seq = peers@.map_values(|p: Vec<u8>| p@);
            assert(forall|j: int| 0 <= j < peers@.len() ==> #[trigger] peers_seq[j] == peers@[j]@);
            assert(status_actions(
                actions@,
                old(self).dir@,
                r,
                self_endpoint@,
                peers_seq,
                source@,
                from_gossip,
            ));
        }
        actions
    }

    /// Answer one datagram on the election endpoint.
    ///
    /// `ELECT` starts an election unless the replica is inside its failure
    /// window; beacons and gossip go through [`Self::apply_record`], whose
    /// actions [`status_actions`] pins down for every well-formed body;
    /// `Request_DOS` answers with the file and the samples; sample
    /// mirroring stores the frame that follows, taken only from the
    /// announcing sender; access control forwards a `CONTROL_UPDATE` to
    /// the endpoint of the first record the directory holds for the peer.
    /// Anything else — an unknown frame, a malformed body, `FAIL` on this
    /// endpoint — is dropped silently and changes nothing.
    pub fn handle_datagram(
        &mut self,
        self_endpoint: &Vec<u8>,
        peers: &Vec<Vec<u8>>,
        data: &[u8],
        source: &Vec<u8>,
        now: u64,
    ) -> (actions: Vec<Action>)
        requires
            old(self).dir.wf(),
        ensures
            final(self).dir.wf(),
            final(self).fail == old(self).fail,
            data@ == elect_lit() && now < old(self).fail.down_until ==> actions@.len() == 0
                && *final(self) == *old(self),
            data@ == elect_lit() && now >= old(self).fail.down_until ==> actions@.len() == 1
                && (actions@[0] matches Action::StartElection { reply_to } && reply_to@ == source@)
                && *final(self) == *old(self),
            final(self).dir@ != old(self).dir@ ==> exists|e: Seq<u8>, b: bool, c: Seq<u8>|
                {
                    &&& quote_free(e)
                    &&& quote_free(c)
                    &&& (data@.skip(7) == status_json(e, b, c) && is_prefix(data@, status_prefix())
                        || data@.skip(12) == status_json(e, b, c) && is_prefix(
                        data@,
                        dir_of_serv_prefix(),
                    ))
                    &&& final(self).dir@ == dir_apply(
                        old(self).dir@,
                        RecordModel { endpoint: e, owner: c, online: b },
                    )
                },
            is_prefix(data@, status_prefix()) ==> forall|e: Seq<u8>, b: bool, c: Seq<u8>|
                #[trigger] is_status_json(data@.skip(7), e, b, c) ==> final(self).dir@ == dir_apply(
                    old(self).dir@,
                    RecordModel { endpoint: e, owner: c, online: b },
                ) && status_actions(
                    actions@,
                    old(self).dir@,
                    RecordModel { endpoint: e, owner: c, online: b },
                    self_endpoint@,
                    peers@.map_values(|p: Vec<u8>| p@),
                    source@,
                    false,
                ),
            is_prefix(data@, status_prefix()) && (forall|e: Seq<u8>, b: bool, c: Seq<u8>|
                !(#[trigger] is_status_json(data@.skip(7), e, b, c))) ==> actions@.len() == 0
                && *final(self) == *old(self),
            is_prefix(data@, dir_of_serv_prefix()) ==> forall|e: Seq<u8>, b: bool, c: Seq<u8>|
                #[trigger] is_status_json(data@.skip(12), e, b, c) ==> final(self).dir@
                    == dir_apply(
                    old(self).dir@,
                    RecordModel { endpoint: e, owner: c, online: b },
                ) && status_actions(
                    actions@,
                    old(self).dir@,
                    RecordModel { endpoint: e, owner: c, online: b },
                    self_endpoint@,
                    peers@.map_values(|p: Vec<u8>| p@),
                    source@,
                    true,
                ),
            is_prefix(data@, dir_of_serv_prefix()) && (forall|e: Seq<u8>, b: bool, c: Seq<u8>|
                !(#[trigger] is_status_json(data@.skip(12), e, b, c))) ==> actions@.len() == 0
                && *final(self) == *old(self),
            data@ == fail_lit() ==> actions@.len() == 0 && *final(self) == *old(self),
            ({
                &&& data@ != elect_lit()
                &&& data@ != fail_lit()
                &&& data@ != end_samples_lit()
                &&& !is_prefix(data@, request_dos_lit())
                &&& !is_prefix(data@, status_prefix())
                &&& !is_prefix(data@, dir_of_serv_prefix())
                &&& !(is_prefix(data@, sample_upload_prefix()) && split_spec(data@.skip(14), 58).len()
                    == 2)
                &&& !(is_prefix(data@, sample_sync_prefix()) && split_spec(data@.skip(12), 58).len()
                    == 2)
                &&& !(is_prefix(data@, access_control_prefix()) && split_spec(
                    data@.skip(15),
                    95,
                ).len() == 5)
            }) ==> actions@.len() == 0 && *final(self) == *old(self),
            is_prefix(data@, request_dos_lit()) ==> ({
                &&& *final(self) == *old(self)
                &&& actions@.len() == 2
                &&& (actions@[0] matches Action::Send { to, data: d } && to@ == source@ && d@
                    == tagged(dos_prefix(), dos_csv(old(self).dir@)))
                &&& (actions@[1] matches Action::ServeSamples { to } && to@ == source@)
            }),
            data@ == end_samples_lit() ==> actions@.len() == 0 && *final(self) == *old(self),
            is_prefix(data@, sample_upload_prefix()) && split_spec(data@.skip(14), 58).len() == 2
                ==> ({
                let parts = split_spec(data@.skip(14), 58);
                &&& *final(self) == *old(self)
                &&& actions@.len() == 1
                &&& (actions@[0] matches Action::StoreSample { owner, name, from } && owner@
                    == parts[0] && name@ == parts[1] && from@ == source@)
            }),
            is_prefix(data@, sample_sync_prefix()) && split_spec(data@.skip(12), 58).len() == 2
                ==> ({
                let parts = split_spec(data@.skip(12), 58);
                &&& *final(self) == *old(self)
                &&& actions@.len() == 1
                &&& (actions@[0] matches Action::StoreSample { owner, name, from } && owner@
                    == parts[0] && name@ == parts[1] && from@ == source@)
            }),
            is_prefix(data@, access_control_prefix()) && split_spec(data@.skip(15), 95).len() == 5
                ==> ({
                let parts = split_spec(data@.skip(15), 95);
                let at = find_owner(old(self).dir@, parts[1]);
                &&& *final(self) == *old(self)
                &&& (actions@.len() == 1 <==> at != -1)
                &&& (actions@.len() == 0 <==> at == -1)
                &&& (at != -1 ==> (actions@[0] matches Action::Send { to, data: d } && to@ == old(
                    self,
                ).dir@[at].endpoint && d@ == control_update_prefix() + parts[1] + seq![58u8]
                    + parts[2] + seq![95u8] + parts[3] + seq![58u8] + parts[4]))
            }),
    {
        let msg = classify_server(data);
        match msg {
            ServerMsg::Elect => {
                let mut actions: Vec<Action> = Vec::new();
                if !self.fail.is_down(now) {
                    actions.push(Action::StartElection { reply_to: source.clone() });
                }
                actions
            },
            ServerMsg::Status { body } => {
                match parse_status_json(body.as_slice()) {
                    Some((endpoint, online, owner)) => {
                        let actions = self.apply_record(
                            self_endpoint,
                            peers,
                            &endpoint,
                            &owner,
                            online,
                            source,
                            false,
                        );
                        proof {
                            assert forall|e: Seq<u8>, b: bool, c: Seq<u8>|
                                #[trigger] is_status_json(data@.skip(7), e, b, c) implies self.dir@
                                == dir_apply(
                                old(self).dir@,
                                RecordModel { endpoint: e, owner: c, online: b },
                            ) && status_actions(
                                actions@,
                                old(self).dir@,
                                RecordModel { endpoint: e, owner: c, online: b },
                                self_endpoint@,
                                peers@.map_values(|p: Vec<u8>| p@),
                                source@,
                                false,
                            ) by {
                                lemma_status_json_injective(
                                    data@.skip(7),
                                    e,
                                    b,
                                    c,
                                    endpoint@,
                                    online,
                                    owner@,
                                );
                            }
                        }
                        actions
                    },
                    None => Vec::new(),
                }
            },
            ServerMsg::DirOfServ { body } => {
                match parse_status_json(body.as_slice()) {
                    Some((endpoint, online, owner)) => {
                        let actions = self.apply_record(
                            self_endpoint,
                            peers,
                            &endpoint,
                            &owner,
                            online,
                            source,
                            true,
                        );
                        proof {
                            assert forall|e: Seq<u8>, b: bool, c: Seq<u8>|
                                #[trigger] is_status_json(data@.skip(12), e, b, c) implies self.dir@
                                == dir_apply(
                                old(self).dir@,
                                RecordModel { endpoint: e, owner: c, online: b },
                            ) && status_actions(
                                actions@,
                                old(self).dir@,
                                RecordModel { endpoint: e, owner: c, online: b },
                                self_endpoint@,
                                peers@.map_values(|p: Vec<u8>| p@),
                                source@,
                                true,
                            ) by {
                                lemma_status_json_injective(
                                    data@.skip(12),
                                    e,
                                    b,
                                    c,
                                    endpoint@,
                                    online,
                                    owner@,
                                );
                            }
                        }
                        actions
                    },
                    None => Vec::new(),
                }
            },
            ServerMsg::RequestDos => {
                let csv = self.dir.to_csv();
                let reply = format_dos(csv.as_slice());
                let mut actions: Vec<Action> = Vec::new();
                actions.push(Action::Send { to: source.clone(), data: reply });
                actions.push(Action::ServeSamples { to: source.clone() });
                actions
            },
            ServerMsg::SampleUpload { owner, name } => {
                let mut actions: Vec<Action> = Vec::new();
                let from = source.clone();
                proof {
                    assert(from@ =~= source@);
                }
                actions.push(Action::StoreSample { owner, name, from });
                actions
            },
            ServerMsg::SampleSync { owner, name } => {
                let mut actions: Vec<Action> = Vec::new();
                let from = source.clone();
                proof {
                    assert(from@ =~= source@);
                }
                actions.push(Action::StoreSample { owner, name, from });
                actions
            },
            ServerMsg::AccessControl { client: _, peer, image_a, image_b, views } => {
                let mut actions: Vec<Action> = Vec::new();
                match self.dir.endpoint_of_owner(&peer) {
                    Some(to) => {
                        let mut image = image_a;
                        image.push(95);
                        crate::messages::append_slice(&mut image, image_b.as_slice());
                        let frame = format_control_update(
                            peer.as_slice(),
                            image.as_slice(),
                            views.as_slice(),
                        );
                        proof {
                            let parts = split_spec(data@.skip(15), 95);
                            assert(frame@ =~= control_update_prefix() + parts[1] + seq![58u8]
                                + parts[2] + seq![95u8] + parts[3] + seq![58u8] + parts[4]);
                        }
                        actions.push(Action::Send { to, data: frame });
                    },
                    None => {},
                }
                actions
            },
            _ => Vec::new(),
        }
    }

    /// Take a `FAIL` hit: the replica ignores elections until `now + 30`.
    pub fn handle_fail(&mut self, data: &[u8], now: u64)
        requires
            now + 30 <= u64::MAX,
        ensures
            final(self).dir == old(self).dir,
            data@ == fail_lit() ==> final(self).fail.down_until == now + 30,
            data@ != fail_lit() ==> final(self).fail == old(self).fail,
    {
        let msg = classify_server(data);
        if let ServerMsg::Fail = msg {
            self.fail.fail(now);
        }
    }
}

/// Decide a finished election: the replica that holds the minimal
/// `(load, id)` ballot — or collected no response at all — announces
/// itself to the client that asked, on its announce-back endpoint.
pub fn finish_election(
    self_endpoint: &Vec<u8>,
    own: Ballot,
    responses: &Vec<Ballot>,
    reply_to: &Vec<u8>,
) -> (r: Option<Action>)
    ensures
        r is Some <==> responses@.len() == 0 || elected(own, responses@).id == own.id,
        r matches Some(a) ==> (a matches Action::Send { to, data } && to@ == reply_to@ && data@
            == tagged(leader_ack_prefix(), self_endpoint@)),
{
    let outcome = decide_election(own, responses);
    if outcome.is_leader {
        let frame = format_leader_ack(self_endpoint.as_slice());
        Some(Action::Send { to: reply_to.clone(), data: frame })
    } else {
        None
    }
}

/// The leader's encode round: hide an uploaded blob in the cover, frame
/// the stego PNG for the transport, and return the frames to stream back.
/// It succeeds exactly where the codec does and the PNG fits the
/// transport's framing bounds.
pub fn encode_round(payload: &Vec<u8>, cover: &ImageBuf, views: u32, owner: u32) -> (r: Result<
    Vec<Vec<u8>>,
    CodecError,
>)
    requires
        cover@.wf(),
        cover@.width > 0,
        cover@.height > 0,
    ensures
        r is Ok <==> (rgba_decoded(payload@) matches Some(p) && encode_capacity_ok(p)
            && (png_encoded_opt(stego_model(cover@, p, views, owner)) matches Some(png)
            && png.len() + 2043 <= usize::MAX && num_chunks(png.len()) <= u32::MAX)),
        r matches Ok(frames) ==> ({
            let p = rgba_decoded(payload@)->Some_0;
            let png = png_encoded_opt(stego_model(cover@, p, views, owner))->Some_0;
            &&& frames@.len() == num_chunks(png.len()) + 1
            &&& (forall|i: int|
                0 <= i < num_chunks(png.len()) ==> #[trigger] frames@[i]@ == data_frame(png, i))
            &&& frames@[frames@.len() - 1]@ == end_frame(png)
        }),
        r == Err::<Vec<Vec<u8>>, CodecError>(CodecError::DecodeFailed) <==> rgba_decoded(
            payload@,
        ) is None,
        r == Err::<Vec<Vec<u8>>, CodecError>(CodecError::EncodeFailed) <==> (rgba_decoded(
            payload@,
        ) matches Some(p) && encode_capacity_ok(p) && png_encoded_opt(
            stego_model(cover@, p, views, owner),
        ) is None),
        r == Err::<Vec<Vec<u8>>, CodecError>(CodecError::CapacityExceeded) <==> (rgba_decoded(
            payload@,
        ) matches Some(p) && (!encode_capacity_ok(p) || (encode_capacity_ok(p)
            && (png_encoded_opt(stego_model(cover@, p, views, owner)) matches Some(png) && !(
            png.len() + 2043 <= usize::MAX && num_chunks(png.len()) <= u32::MAX))))),
{
    let stego = match stego_encode(payload, cover, views, owner) {
        Ok(v) => v,
        Err(e) => {
            return Err(e);
        },
    };
    let len = stego.len();
    if len > usize::MAX - 2043 {
        return Err(CodecError::CapacityExceeded);
    }
    let chunks = (len + 2043) / 2044;
    if chunks > u32::MAX as usize {
        return Err(CodecError::CapacityExceeded);
    }
    Ok(build_frames(&stego))
}

} // verus!
