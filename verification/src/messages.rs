//! The ASCII wire messages of the service: tagged frames such as
//! `STATUS:<json>`, `LEADER_ACK:<host:port>` or `SAMPLE_UPLOAD:<owner>:<name>`.
//! Formatting and classification are exact inverses on well-formed fields.

use vstd::prelude::*;

use crate::bytes::is_prefix;
use crate::bytes::starts_with;
use crate::bytes::bytes_eq;
use crate::bytes::tail_from;
use crate::bytes::split_on;
use crate::bytes::split_spec;
use crate::bytes::dec_repr;
use crate::bytes::dec_value;
use crate::bytes::all_digits;
use crate::bytes::find_byte_spec;
use crate::bytes::u32_dec;
use crate::bytes::parse_u32_dec;

verus! {

/// `ELECT`
pub open spec fn elect_lit() -> Seq<u8> {
    seq![69u8, 76u8, 69u8, 67u8, 84u8]
}

/// `FAIL`
pub open spec fn fail_lit() -> Seq<u8> {
    seq![70u8, 65u8, 73u8, 76u8]
}

/// `STATUS:`
pub open spec fn status_prefix() -> Seq<u8> {
    seq![83u8, 84u8, 65u8, 84u8, 85u8, 83u8, 58u8]
}

/// `DIR_OF_SERV:`
pub open spec fn dir_of_serv_prefix() -> Seq<u8> {
    seq![68u8, 73u8, 82u8, 95u8, 79u8, 70u8, 95u8, 83u8, 69u8, 82u8, 86u8, 58u8]
}

/// `Request_DOS`
pub open spec fn request_dos_lit() -> Seq<u8> {
    seq![82u8, 101u8, 113u8, 117u8, 101u8, 115u8, 116u8, 95u8, 68u8, 79u8, 83u8]
}

/// `SAMPLE_UPLOAD:`
pub open spec fn sample_upload_prefix() -> Seq<u8> {
    seq![83u8, 65u8, 77u8, 80u8, 76u8, 69u8, 95u8, 85u8, 80u8, 76u8, 79u8, 65u8, 68u8, 58u8]
}

/// `SAMPLE_SYNC:`
pub open spec fn sample_sync_prefix() -> Seq<u8> {
    seq![83u8, 65u8, 77u8, 80u8, 76u8, 69u8, 95u8, 83u8, 89u8, 78u8, 67u8, 58u8]
}

/// `SAMPLE:`
pub open spec fn sample_prefix() -> Seq<u8> {
    seq![83u8, 65u8, 77u8, 80u8, 76u8, 69u8, 58u8]
}

/// `END_SAMPLES`
pub open spec fn end_samples_lit() -> Seq<u8> {
    seq![69u8, 78u8, 68u8, 95u8, 83u8, 65u8, 77u8, 80u8, 76u8, 69u8, 83u8]
}

/// `SAMPLES_DONE`
pub open spec fn samples_done_lit() -> Seq<u8> {
    seq![83u8, 65u8, 77u8, 80u8, 76u8, 69u8, 83u8, 95u8, 68u8, 79u8, 78u8, 69u8]
}

/// `NO_SAMPLES`
pub open spec fn no_samples_lit() -> Seq<u8> {
    seq![78u8, 79u8, 95u8, 83u8, 65u8, 77u8, 80u8, 76u8, 69u8, 83u8]
}

/// `Access_Control:`
pub open spec fn access_control_prefix() -> Seq<u8> {
    seq![
        65u8, 99u8, 99u8, 101u8, 115u8, 115u8, 95u8, 67u8, 111u8, 110u8, 116u8, 114u8, 111u8,
        108u8, 58u8,
    ]
}

/// `LEADER_ACK:`
pub open spec fn leader_ack_prefix() -> Seq<u8> {
    seq![76u8, 69u8, 65u8, 68u8, 69u8, 82u8, 95u8, 65u8, 67u8, 75u8, 58u8]
}

/// `STATUS_ACK:`
pub open spec fn status_ack_prefix() -> Seq<u8> {
    seq![83u8, 84u8, 65u8, 84u8, 85u8, 83u8, 95u8, 65u8, 67u8, 75u8, 58u8]
}

/// `DOS:`
pub open spec fn dos_prefix() -> Seq<u8> {
    seq![68u8, 79u8, 83u8, 58u8]
}

/// `REQUEST_IMAGE_FROM`
pub open spec fn request_image_prefix() -> Seq<u8> {
    seq![
        82u8, 69u8, 81u8, 85u8, 69u8, 83u8, 84u8, 95u8, 73u8, 77u8, 65u8, 71u8, 69u8, 95u8, 70u8,
        82u8, 79u8, 77u8,
    ]
}

/// `CONTROL_UPDATE:`
pub open spec fn control_update_prefix() -> Seq<u8> {
    seq![
        67u8, 79u8, 78u8, 84u8, 82u8, 79u8, 76u8, 95u8, 85u8, 80u8, 68u8, 65u8, 84u8, 69u8, 58u8,
    ]
}

/// `TOTAL_CHUNKS:`
pub open spec fn total_chunks_prefix() -> Seq<u8> {
    seq![84u8, 79u8, 84u8, 65u8, 76u8, 95u8, 67u8, 72u8, 85u8, 78u8, 75u8, 83u8, 58u8]
}

/// `IMAGE_NOT_FOUND:`
pub open spec fn image_not_found_prefix() -> Seq<u8> {
    seq![
        73u8, 77u8, 65u8, 71u8, 69u8, 95u8, 78u8, 79u8, 84u8, 95u8, 70u8, 79u8, 85u8, 78u8, 68u8,
        58u8,
    ]
}

/// `ACK:`
pub open spec fn ack_colon_prefix() -> Seq<u8> {
    seq![65u8, 67u8, 75u8, 58u8]
}

/// `NACK:`
pub open spec fn nack_colon_prefix() -> Seq<u8> {
    seq![78u8, 65u8, 67u8, 75u8, 58u8]
}

/// A tagged frame: the tag, then the rest.
pub open spec fn tagged(tag: Seq<u8>, rest: Seq<u8>) -> Seq<u8> {
    tag + rest
}

/// Append `tail` to `out`.
pub fn append_slice(out: &mut Vec<u8>, tail: &[u8])
    ensures
        final(out)@ == old(out)@ + tail@,
{
    out.extend_from_slice(tail);
    assert(out@ =~= old(out)@ + tail@);
}

/// Two tags that differ at one position cannot both head the same frame.
pub proof fn lemma_prefixes_differ(data: Seq<u8>, p: Seq<u8>, q: Seq<u8>, i: int)
    requires
        is_prefix(data, p),
        0 <= i < p.len(),
        0 <= i < q.len(),
        p[i] != q[i],
    ensures
        !is_prefix(data, q),
{
    if is_prefix(data, q) {
        assert(data.take(p.len() as int)[i] == p[i]);
        assert(data.take(q.len() as int)[i] == q[i]);
        assert(data[i] == p[i] && data[i] == q[i]);
    }
}

/// A message a replica may receive on its election endpoint, or `FAIL` on
/// its failure endpoint.
pub enum ServerMsg {
    /// A client asks for an election.
    Elect,
    /// A client's online beacon; the body is its JSON description.
    Status { body: Vec<u8> },
    /// A peer replica gossips a record; the body is its JSON description.
    DirOfServ { body: Vec<u8> },
    /// A client asks for the directory and the samples.
    RequestDos,
    /// A client announces one sample: owner id and sample name.
    SampleUpload { owner: Vec<u8>, name: Vec<u8> },
    /// A peer replica mirrors one sample: owner id and sample name.
    SampleSync { owner: Vec<u8>, name: Vec<u8> },
    /// The client has no more samples to upload.
    EndSamples,
    /// An owner changes a viewer's budget:
    /// `<client>_<peer>_<imageA>_<imageB>_<views>`, a fixed five-part split.
    AccessControl {
        client: Vec<u8>,
        peer: Vec<u8>,
        image_a: Vec<u8>,
        image_b: Vec<u8>,
        views: Vec<u8>,
    },
    /// The failure injector takes this replica down for thirty seconds.
    Fail,
    /// Anything else is logged and dropped.
    Unknown,
}

/// Classify a datagram arriving at a replica.
pub fn classify_server(data: &[u8]) -> (r: ServerMsg)
    ensures
        r is Elect <==> data@ == elect_lit(),
        r is Fail <==> data@ == fail_lit(),
        r is EndSamples <==> data@ == end_samples_lit(),
        r is RequestDos <==> is_prefix(data@, request_dos_lit()),
        r matches ServerMsg::Status { body } ==> is_prefix(data@, status_prefix()) && body@
            == data@.skip(7),
        is_prefix(data@, status_prefix()) ==> r is Status,
        r matches ServerMsg::DirOfServ { body } ==> is_prefix(data@, dir_of_serv_prefix())
            && body@ == data@.skip(12),
        is_prefix(data@, dir_of_serv_prefix()) ==> r is DirOfServ,
        r matches ServerMsg::SampleUpload { owner, name } ==> is_prefix(
            data@,
            sample_upload_prefix(),
        ) && split_spec(data@.skip(14), 58).len() == 2 && owner@ == split_spec(
            data@.skip(14),
            58,
        )[0] && name@ == split_spec(data@.skip(14), 58)[1],
        is_prefix(data@, sample_upload_prefix()) && split_spec(data@.skip(14), 58).len() == 2
            ==> r is SampleUpload,
        r matches ServerMsg::SampleSync { owner, name } ==> is_prefix(
            data@,
            sample_sync_prefix(),
        ) && split_spec(data@.skip(12), 58).len() == 2 && owner@ == split_spec(
            data@.skip(12),
            58,
        )[0] && name@ == split_spec(data@.skip(12), 58)[1],
        is_prefix(data@, sample_sync_prefix()) && split_spec(data@.skip(12), 58).len() == 2
            ==> r is SampleSync,
        r matches ServerMsg::AccessControl { client, peer, image_a, image_b, views } ==> ({
            let parts = split_spec(data@.skip(15), 95);
            &&& is_prefix(data@, access_control_prefix())
            &&& parts.len() == 5
            &&& client@ == parts[0]
            &&& peer@ == parts[1]
            &&& image_a@ == parts[2]
            &&& image_b@ == parts[3]
            &&& views@ == parts[4]
        }),
        is_prefix(data@, access_control_prefix()) && split_spec(data@.skip(15), 95).len() == 5
            ==> r is AccessControl,
{
    let elect: [u8; 5] = [69, 76, 69, 67, 84];
    if bytes_eq(data, elect.as_slice()) {
        return ServerMsg::Elect;
    }
    let fail: [u8; 4] = [70, 65, 73, 76];
    if bytes_eq(data, fail.as_slice()) {
        return ServerMsg::Fail;
    }
    let end_samples: [u8; 11] = [69, 78, 68, 95, 83, 65, 77, 80, 76, 69, 83];
    if bytes_eq(data, end_samples.as_slice()) {
        proof {
            assert(data@.take(11) =~= end_samples_lit());
            lemma_prefixes_differ(data@, end_samples_lit(), request_dos_lit(), 0);
            lemma_prefixes_differ(data@, end_samples_lit(), status_prefix(), 0);
        }
        return ServerMsg::EndSamples;
    }
    let request_dos: [u8; 11] = [82, 101, 113, 117, 101, 115, 116, 95, 68, 79, 83];
    if starts_with(data, request_dos.as_slice()) {
        proof {
            lemma_prefixes_differ(data@, request_dos_lit(), status_prefix(), 0);
            lemma_prefixes_differ(data@, request_dos_lit(), dir_of_serv_prefix(), 0);
            lemma_prefixes_differ(data@, request_dos_lit(), sample_upload_prefix(), 0);
            lemma_prefixes_differ(data@, request_dos_lit(), sample_sync_prefix(), 0);
            lemma_prefixes_differ(data@, request_dos_lit(), access_control_prefix(), 0);
        }
        return ServerMsg::RequestDos;
    }
    let status: [u8; 7] = [83, 84, 65, 84, 85, 83, 58];
    if starts_with(data, status.as_slice()) {
        proof {
            lemma_prefixes_differ(data@, status_prefix(), dir_of_serv_prefix(), 0);
            lemma_prefixes_differ(data@, status_prefix(), sample_upload_prefix(), 1);
            lemma_prefixes_differ(data@, status_prefix(), sample_sync_prefix(), 1);
            lemma_prefixes_differ(data@, status_prefix(), access_control_prefix(), 0);
        }
        return ServerMsg::Status { body: tail_from(data, 7) };
    }
    let dir_of_serv: [u8; 12] = [68, 73, 82, 95, 79, 70, 95, 83, 69, 82, 86, 58];
    if starts_with(data, dir_of_serv.as_slice()) {
        proof {
            lemma_prefixes_differ(data@, dir_of_serv_prefix(), sample_upload_prefix(), 0);
            lemma_prefixes_differ(data@, dir_of_serv_prefix(), sample_sync_prefix(), 0);
            lemma_prefixes_differ(data@, dir_of_serv_prefix(), access_control_prefix(), 0);
        }
        return ServerMsg::DirOfServ { body: tail_from(data, 12) };
    }
    let sample_upload: [u8; 14] = [83, 65, 77, 80, 76, 69, 95, 85, 80, 76, 79, 65, 68, 58];
    if starts_with(data, sample_upload.as_slice()) {
        proof {
            lemma_prefixes_differ(data@, sample_upload_prefix(), sample_sync_prefix(), 7);
            lemma_prefixes_differ(data@, sample_upload_prefix(), access_control_prefix(), 0);
        }
        let rest = tail_from(data, 14);
        let mut parts = split_on(rest.as_slice(), 58);
        if parts.len() == 2 {
            let name = parts.pop().unwrap();
            let owner = parts.pop().unwrap();
            return ServerMsg::SampleUpload { owner, name };
        }
        return ServerMsg::Unknown;
    }
    let sample_sync: [u8; 12] = [83, 65, 77, 80, 76, 69, 95, 83, 89, 78, 67, 58];
    if starts_with(data, sample_sync.as_slice()) {
        proof {
            lemma_prefixes_differ(data@, sample_sync_prefix(), access_control_prefix(), 0);
        }
        let rest = tail_from(data, 12);
        let mut parts = split_on(rest.as_slice(), 58);
        if parts.len() == 2 {
            let name = parts.pop().unwrap();
            let owner = parts.pop().unwrap();
            return ServerMsg::SampleSync { owner, name };
        }
        return ServerMsg::Unknown;
    }
    let access: [u8; 15] = [65, 99, 99, 101, 115, 115, 95, 67, 111, 110, 116, 114, 111, 108, 58];
    if starts_with(data, access.as_slice()) {
        let rest = tail_from(data, 15);
        let mut parts = split_on(rest.as_slice(), 95);
        if parts.len() == 5 {
            let views = parts.pop().unwrap();
            let image_b = parts.pop().unwrap();
            let image_a = parts.pop().unwrap();
            let peer = parts.pop().unwrap();
            let client = parts.pop().unwrap();
            return ServerMsg::AccessControl { client, peer, image_a, image_b, views };
        }
        return ServerMsg::Unknown;
    }
    ServerMsg::Unknown
}

/// A message a client may receive on its command socket.
pub enum ClientMsg {
    /// The election winner announces itself; the rest is its endpoint.
    LeaderAck { addr: Vec<u8> },
    /// A replica acknowledges a `STATUS` beacon.
    StatusAck { addr: Vec<u8> },
    /// The directory body, as CSV text.
    Dos { body: Vec<u8> },
    /// One sample follows: owner id and sample name.
    Sample { owner: Vec<u8>, name: Vec<u8> },
    /// The replica holds no samples at all.
    NoSamples,
    /// All samples have been sent.
    SamplesDone,
    /// Anything else is ignored.
    Unknown,
}

/// Classify a datagram arriving at a client's command socket.
pub fn classify_client(data: &[u8]) -> (r: ClientMsg)
    ensures
        r is NoSamples <==> data@ == no_samples_lit(),
        r is SamplesDone <==> data@ == samples_done_lit(),
        r matches ClientMsg::LeaderAck { addr } ==> is_prefix(data@, leader_ack_prefix()) && addr@
            == data@.skip(11),
        is_prefix(data@, leader_ack_prefix()) ==> r is LeaderAck,
        r matches ClientMsg::StatusAck { addr } ==> is_prefix(data@, status_ack_prefix()) && addr@
            == data@.skip(11),
        is_prefix(data@, status_ack_prefix()) ==> r is StatusAck,
        r matches ClientMsg::Dos { body } ==> is_prefix(data@, dos_prefix()) && body@ == data@.skip(
            4,
        ),
        is_prefix(data@, dos_prefix()) ==> r is Dos,
        r matches ClientMsg::Sample { owner, name } ==> is_prefix(data@, sample_prefix())
            && split_spec(data@.skip(7), 58).len() == 2 && owner@ == split_spec(data@.skip(7), 58)[0]
            && name@ == split_spec(data@.skip(7), 58)[1],
        is_prefix(data@, sample_prefix()) && split_spec(data@.skip(7), 58).len() == 2 ==> r
            is Sample,
{
    let no_samples: [u8; 10] = [78, 79, 95, 83, 65, 77, 80, 76, 69, 83];
    if bytes_eq(data, no_samples.as_slice()) {
        proof {
            assert(data@.take(10) =~= no_samples_lit());
            lemma_prefixes_differ(data@, no_samples_lit(), dos_prefix(), 0);
            lemma_prefixes_differ(data@, no_samples_lit(), sample_prefix(), 0);
        }
        return ClientMsg::NoSamples;
    }
    let samples_done: [u8; 12] = [83, 65, 77, 80, 76, 69, 83, 95, 68, 79, 78, 69];
    if bytes_eq(data, samples_done.as_slice()) {
        proof {
            assert(data@.take(12) =~= samples_done_lit());
            lemma_prefixes_differ(data@, samples_done_lit(), leader_ack_prefix(), 0);
            lemma_prefixes_differ(data@, samples_done_lit(), status_ack_prefix(), 1);
            lemma_prefixes_differ(data@, samples_done_lit(), dos_prefix(), 0);
            lemma_prefixes_differ(data@, samples_done_lit(), sample_prefix(), 6);
        }
        return ClientMsg::SamplesDone;
    }
    let leader_ack: [u8; 11] = [76, 69, 65, 68, 69, 82, 95, 65, 67, 75, 58];
    if starts_with(data, leader_ack.as_slice()) {
        proof {
            lemma_prefixes_differ(data@, leader_ack_prefix(), status_ack_prefix(), 0);
            lemma_prefixes_differ(data@, leader_ack_prefix(), dos_prefix(), 0);
            lemma_prefixes_differ(data@, leader_ack_prefix(), sample_prefix(), 0);
        }
        return ClientMsg::LeaderAck { addr: tail_from(data, 11) };
    }
    let status_ack: [u8; 11] = [83, 84, 65, 84, 85, 83, 95, 65, 67, 75, 58];
    if starts_with(data, status_ack.as_slice()) {
        proof {
            lemma_prefixes_differ(data@, status_ack_prefix(), dos_prefix(), 0);
            lemma_prefixes_differ(data@, status_ack_prefix(), sample_prefix(), 1);
        }
        return ClientMsg::StatusAck { addr: tail_from(data, 11) };
    }
    let dos: [u8; 4] = [68, 79, 83, 58];
    if starts_with(data, dos.as_slice()) {
        proof {
            lemma_prefixes_differ(data@, dos_prefix(), sample_prefix(), 0);
        }
        return ClientMsg::Dos { body: tail_from(data, 4) };
    }
    let sample: [u8; 7] = [83, 65, 77, 80, 76, 69, 58];
    if starts_with(data, sample.as_slice()) {
        let rest = tail_from(data, 7);
        let mut parts = split_on(rest.as_slice(), 58);
        if parts.len() == 2 {
            let name = parts.pop().unwrap();
            let owner = parts.pop().unwrap();
            return ClientMsg::Sample { owner, name };
        }
        return ClientMsg::Unknown;
    }
    ClientMsg::Unknown
}

/// A message a client's P2P listener may receive.
pub enum PeerMsg {
    /// A peer asks for an image: `REQUEST_IMAGE_FROM<requester>:<image>`.
    RequestImage { requester: Vec<u8>, image: Vec<u8> },
    /// An owner rewrites this viewer's budget:
    /// `CONTROL_UPDATE:<client>:<image>:<views>`.
    ControlUpdate { client: Vec<u8>, image: Vec<u8>, views: Vec<u8> },
    /// Anything else is ignored.
    Unknown,
}

/// Classify a datagram arriving at a client's P2P listener.
pub fn classify_peer(data: &[u8]) -> (r: PeerMsg)
    ensures
        r matches PeerMsg::RequestImage { requester, image } ==> is_prefix(
            data@,
            request_image_prefix(),
        ) && split_spec(data@.skip(18), 58).len() == 2 && requester@ == split_spec(
            data@.skip(18),
            58,
        )[0] && image@ == split_spec(data@.skip(18), 58)[1],
        is_prefix(data@, request_image_prefix()) && split_spec(data@.skip(18), 58).len() == 2
            ==> r is RequestImage,
        r matches PeerMsg::ControlUpdate { client, image, views } ==> is_prefix(
            data@,
            control_update_prefix(),
        ) && split_spec(data@.skip(15), 58).len() == 3 && client@ == split_spec(
            data@.skip(15),
            58,
        )[0] && image@ == split_spec(data@.skip(15), 58)[1] && views@ == split_spec(
            data@.skip(15),
            58,
        )[2],
        is_prefix(data@, control_update_prefix()) && split_spec(data@.skip(15), 58).len() == 3
            ==> r is ControlUpdate,
{
    let request_image: [u8; 18] = [
        82, 69, 81, 85, 69, 83, 84, 95, 73, 77, 65, 71, 69, 95, 70, 82, 79, 77,
    ];
    if starts_with(data, request_image.as_slice()) {
        proof {
            lemma_prefixes_differ(data@, request_image_prefix(), control_update_prefix(), 0);
        }
        let rest = tail_from(data, 18);
        let mut parts = split_on(rest.as_slice(), 58);
        if parts.len() == 2 {
            let image = parts.pop().unwrap();
            let requester = parts.pop().unwrap();
            return PeerMsg::RequestImage { requester, image };
        }
        return PeerMsg::Unknown;
    }
    let control_update: [u8; 15] = [
        67, 79, 78, 84, 82, 79, 76, 95, 85, 80, 68, 65, 84, 69, 58,
    ];
    if starts_with(data, control_update.as_slice()) {
        let rest = tail_from(data, 15);
        let mut parts = split_on(rest.as_slice(), 58);
        if parts.len() == 3 {
            let views = parts.pop().unwrap();
            let image = parts.pop().unwrap();
            let client = parts.pop().unwrap();
            return PeerMsg::ControlUpdate { client, image, views };
        }
        return PeerMsg::Unknown;
    }
    PeerMsg::Unknown
}

/// A message the fetching side of a peer transfer may receive.
pub enum FetchMsg {
    /// How many chunks the image will arrive in.
    TotalChunks(u32),
    /// The peer does not hold the requested image.
    ImageNotFound { image: Vec<u8> },
    /// The receiver acknowledges chunk `n`.
    Ack(u32),
    /// The receiver refuses chunk `n`.
    Nack(u32),
    /// Anything else is ignored.
    Unknown,
}

/// Classify a datagram on the peer-transfer path.
pub fn classify_fetch(data: &[u8]) -> (r: FetchMsg)
    ensures
        r matches FetchMsg::TotalChunks(n) ==> is_prefix(data@, total_chunks_prefix())
            && all_digits(data@.skip(13)) && data@.len() > 13 && n == dec_value(data@.skip(13)),
        is_prefix(data@, total_chunks_prefix()) && data@.len() > 13 && all_digits(data@.skip(13))
            && dec_value(data@.skip(13)) <= u32::MAX ==> r is TotalChunks,
        r matches FetchMsg::ImageNotFound { image } ==> is_prefix(data@, image_not_found_prefix())
            && image@ == data@.skip(16),
        is_prefix(data@, image_not_found_prefix()) ==> r is ImageNotFound,
        r matches FetchMsg::Ack(n) ==> is_prefix(data@, ack_colon_prefix()) && all_digits(
            data@.skip(4),
        ) && data@.len() > 4 && n == dec_value(data@.skip(4)),
        is_prefix(data@, ack_colon_prefix()) && data@.len() > 4 && all_digits(data@.skip(4))
            && dec_value(data@.skip(4)) <= u32::MAX ==> r is Ack,
        r matches FetchMsg::Nack(n) ==> is_prefix(data@, nack_colon_prefix()) && all_digits(
            data@.skip(5),
        ) && data@.len() > 5 && n == dec_value(data@.skip(5)),
        is_prefix(data@, nack_colon_prefix()) && data@.len() > 5 && all_digits(data@.skip(5))
            && dec_value(data@.skip(5)) <= u32::MAX ==> r is Nack,
{
    let total_chunks: [u8; 13] = [84, 79, 84, 65, 76, 95, 67, 72, 85, 78, 75, 83, 58];
    if starts_with(data, total_chunks.as_slice()) {
        proof {
            lemma_prefixes_differ(data@, total_chunks_prefix(), image_not_found_prefix(), 0);
            lemma_prefixes_differ(data@, total_chunks_prefix(), ack_colon_prefix(), 0);
            lemma_prefixes_differ(data@, total_chunks_prefix(), nack_colon_prefix(), 0);
        }
        let rest = tail_from(data, 13);
        match parse_u32_dec(rest.as_slice()) {
            Some(n) => {
                return FetchMsg::TotalChunks(n);
            },
            None => {
                return FetchMsg::Unknown;
            },
        }
    }
    let image_not_found: [u8; 16] = [
        73, 77, 65, 71, 69, 95, 78, 79, 84, 95, 70, 79, 85, 78, 68, 58,
    ];
    if starts_with(data, image_not_found.as_slice()) {
        proof {
            lemma_prefixes_differ(data@, image_not_found_prefix(), ack_colon_prefix(), 0);
            lemma_prefixes_differ(data@, image_not_found_prefix(), nack_colon_prefix(), 0);
        }
        return FetchMsg::ImageNotFound { image: tail_from(data, 16) };
    }
    let ack: [u8; 4] = [65, 67, 75, 58];
    if starts_with(data, ack.as_slice()) {
        proof {
            lemma_prefixes_differ(data@, ack_colon_prefix(), nack_colon_prefix(), 0);
        }
        let rest = tail_from(data, 4);
        match parse_u32_dec(rest.as_slice()) {
            Some(n) => {
                return FetchMsg::Ack(n);
            },
            None => {
                return FetchMsg::Unknown;
            },
        }
    }
    let nack: [u8; 5] = [78, 65, 67, 75, 58];
    if starts_with(data, nack.as_slice()) {
        let rest = tail_from(data, 5);
        match parse_u32_dec(rest.as_slice()) {
            Some(n) => {
                return FetchMsg::Nack(n);
            },
            None => {
                return FetchMsg::Unknown;
            },
        }
    }
    FetchMsg::Unknown
}

/// `{"ip":"`
pub open spec fn json_ip_open() -> Seq<u8> {
    seq![123u8, 34u8, 105u8, 112u8, 34u8, 58u8, 34u8]
}

/// `","status":`
pub open spec fn json_status_mid() -> Seq<u8> {
    seq![34u8, 44u8, 34u8, 115u8, 116u8, 97u8, 116u8, 117u8, 115u8, 34u8, 58u8]
}

/// `,"client_id":"`
pub open spec fn json_client_mid() -> Seq<u8> {
    seq![44u8, 34u8, 99u8, 108u8, 105u8, 101u8, 110u8, 116u8, 95u8, 105u8, 100u8, 34u8, 58u8, 34u8]
}

/// `"}`
pub open spec fn json_close() -> Seq<u8> {
    seq![34u8, 125u8]
}

/// `true` or `false`.
pub open spec fn bool_text(b: bool) -> Seq<u8> {
    if b {
        seq![116u8, 114u8, 117u8, 101u8]
    } else {
        seq![102u8, 97u8, 108u8, 115u8, 101u8]
    }
}

/// `s` holds no double quote, so it can stand inside a JSON string.
pub open spec fn quote_free(s: Seq<u8>) -> bool {
    forall|i: int| 0 <= i < s.len() ==> s[i] != 34
}

/// The JSON description of an online status:
/// `{"ip":"<endpoint>","status":<bool>,"client_id":"<owner>"}`.
pub open spec fn status_json(endpoint: Seq<u8>, online: bool, owner: Seq<u8>) -> Seq<u8> {
    json_ip_open() + endpoint + json_status_mid() + bool_text(online) + json_client_mid() + owner
        + json_close()
}

/// Write `true` or `false`.
pub fn bool_bytes(b: bool) -> (r: Vec<u8>)
    ensures
        r@ == bool_text(b),
{
    let mut r: Vec<u8> = Vec::new();
    if b {
        r.push(116);
        r.push(114);
        r.push(117);
        r.push(101);
    } else {
        r.push(102);
        r.push(97);
        r.push(108);
        r.push(115);
        r.push(101);
    }
    assert(r@ =~= bool_text(b));
    r
}

/// Write the JSON description of an online status.
pub fn format_status_json(endpoint: &[u8], online: bool, owner: &[u8]) -> (r: Vec<u8>)
    ensures
        r@ == status_json(endpoint@, online, owner@),
{
    let ip_open: [u8; 7] = [123, 34, 105, 112, 34, 58, 34];
    let status_mid: [u8; 11] = [34, 44, 34, 115, 116, 97, 116, 117, 115, 34, 58];
    let client_mid: [u8; 14] = [44, 34, 99, 108, 105, 101, 110, 116, 95, 105, 100, 34, 58, 34];
    let mut r: Vec<u8> = Vec::new();
    append_slice(&mut r, ip_open.as_slice());
    append_slice(&mut r, endpoint);
    append_slice(&mut r, status_mid.as_slice());
    let b = bool_bytes(online);
    append_slice(&mut r, b.as_slice());
    append_slice(&mut r, client_mid.as_slice());
    append_slice(&mut r, owner);
    r.push(34);
    r.push(125);
    assert(r@ =~= status_json(endpoint@, online, owner@));
    r
}

/// `data` is the status JSON for the fields `(e, b, c)`, with both
/// strings free of quotes.
pub open spec fn is_status_json(data: Seq<u8>, e: Seq<u8>, b: bool, c: Seq<u8>) -> bool {
    quote_free(e) && quote_free(c) && data == status_json(e, b, c)
}

/// What follows the opening literal in a status JSON.
pub open spec fn status_json_tail(e: Seq<u8>, b: bool, c: Seq<u8>) -> Seq<u8> {
    e + json_status_mid() + bool_text(b) + json_client_mid() + c + json_close()
}

proof fn lemma_json_shape(e: Seq<u8>, b: bool, c: Seq<u8>)
    ensures
        status_json(e, b, c).len() >= 34 + e.len() + c.len(),
        status_json(e, b, c).take(7) == json_ip_open(),
        status_json(e, b, c).skip(7) == status_json_tail(e, b, c),
{
    assert(status_json(e, b, c).take(7) =~= json_ip_open());
    assert(status_json(e, b, c).skip(7) =~= status_json_tail(e, b, c));
}

/// In a status JSON, the first quote after the opening literal closes the
/// endpoint string, and what follows it is the fixed middle, the bool, the
/// owner string and the close.
proof fn lemma_json_decompose(data: Seq<u8>, e: Seq<u8>, b: bool, c: Seq<u8>)
    requires
        is_status_json(data, e, b, c),
    ensures
        data.len() >= 34 + e.len() + c.len(),
        is_prefix(data, json_ip_open()),
        crate::bytes::find_byte_spec(data.skip(7), 34) == e.len(),
        data.skip(7).skip(e.len() as int) == json_status_mid() + bool_text(b) + json_client_mid()
            + c + json_close(),
        data.skip(7).skip(e.len() as int).skip(11) == bool_text(b) + json_client_mid() + c
            + json_close(),
{
    lemma_json_shape(e, b, c);
    let t7 = data.skip(7);
    assert(t7 == status_json_tail(e, b, c));
    assert(t7[e.len() as int] == 34);
    assert(forall|j: int| 0 <= j < e.len() ==> t7[j] == e[j] && e[j] != 34);
    crate::bytes::lemma_find_byte_at(t7, 34, e.len() as int);
    assert(t7.skip(e.len() as int) =~= json_status_mid() + bool_text(b) + json_client_mid() + c
        + json_close());
    assert(t7.skip(e.len() as int).skip(11) =~= bool_text(b) + json_client_mid() + c
        + json_close());
    assert(data.take(7) =~= json_ip_open());
}

/// The bool literal in a status JSON tells `b`: `true` leads with `t`,
/// `false` with `f`.
proof fn lemma_json_bool(data: Seq<u8>, e: Seq<u8>, b: bool, c: Seq<u8>)
    requires
        is_status_json(data, e, b, c),
    ensures
        b <==> is_prefix(data.skip(7).skip(e.len() as int).skip(11), bool_text(true)),
        !b <==> is_prefix(data.skip(7).skip(e.len() as int).skip(11), bool_text(false)),
        data.skip(7).skip(e.len() as int).skip(11).skip(bool_text(b).len() as int)
            == json_client_mid() + c + json_close(),
{
    lemma_json_decompose(data, e, b, c);
    let rest2 = data.skip(7).skip(e.len() as int).skip(11);
    assert(rest2 == bool_text(b) + json_client_mid() + c + json_close());
    if b {
        assert(rest2.take(4) =~= bool_text(true));
        if is_prefix(rest2, bool_text(false)) {
            assert(rest2.take(5)[0] == 102);
            assert(rest2[0] == 116);
        }
    } else {
        assert(rest2.take(5) =~= bool_text(false));
        if is_prefix(rest2, bool_text(true)) {
            assert(rest2.take(4)[0] == 116);
            assert(rest2[0] == 102);
        }
    }
    assert(rest2.skip(bool_text(b).len() as int) =~= json_client_mid() + c + json_close());
}

/// In a status JSON, the first quote after the fixed middle closes the
/// owner string, and the two final bytes close the object.
proof fn lemma_json_owner(data: Seq<u8>, e: Seq<u8>, b: bool, c: Seq<u8>)
    requires
        is_status_json(data, e, b, c),
    ensures
        ({
            let rest4 = data.skip(7).skip(e.len() as int).skip(11).skip(
                bool_text(b).len() as int,
            ).skip(14);
            &&& rest4 == c + json_close()
            &&& find_byte_spec(rest4, 34) == c.len()
            &&& rest4.skip(c.len() as int) == json_close()
            &&& is_prefix(
                data.skip(7).skip(e.len() as int).skip(11).skip(bool_text(b).len() as int),
                json_client_mid(),
            )
        }),
{
    lemma_json_bool(data, e, b, c);
    let rest3 = data.skip(7).skip(e.len() as int).skip(11).skip(bool_text(b).len() as int);
    assert(rest3 == json_client_mid() + c + json_close());
    assert(rest3.take(14) =~= json_client_mid());
    let rest4 = rest3.skip(14);
    assert(rest4 =~= c + json_close());
    assert(rest4[c.len() as int] == 34);
    assert(forall|j: int| 0 <= j < c.len() ==> rest4[j] == c[j] && c[j] != 34);
    crate::bytes::lemma_find_byte_at(rest4, 34, c.len() as int);
    assert(rest4.skip(c.len() as int) =~= json_close());
}

/// A status JSON denotes exactly one triple of fields: the first quote
/// closes the endpoint, the bool literal is unambiguous, and the next
/// quote closes the owner.
pub proof fn lemma_status_json_injective(
    data: Seq<u8>,
    e1: Seq<u8>,
    b1: bool,
    c1: Seq<u8>,
    e2: Seq<u8>,
    b2: bool,
    c2: Seq<u8>,
)
    requires
        is_status_json(data, e1, b1, c1),
        is_status_json(data, e2, b2, c2),
    ensures
        e1 == e2,
        b1 == b2,
        c1 == c2,
{
    lemma_json_decompose(data, e1, b1, c1);
    lemma_json_decompose(data, e2, b2, c2);
    assert(e1.len() == e2.len());
    assert(e1 =~= data.skip(7).take(e1.len() as int)) by {
        lemma_json_shape(e1, b1, c1);
        assert(data.skip(7) == status_json_tail(e1, b1, c1));
    }
    assert(e2 =~= data.skip(7).take(e2.len() as int)) by {
        lemma_json_shape(e2, b2, c2);
        assert(data.skip(7) == status_json_tail(e2, b2, c2));
    }
    lemma_json_bool(data, e1, b1, c1);
    lemma_json_bool(data, e2, b2, c2);
    assert(b1 == b2);
    lemma_json_owner(data, e1, b1, c1);
    lemma_json_owner(data, e2, b2, c2);
    let rest4 = data.skip(7).skip(e1.len() as int).skip(11).skip(bool_text(b1).len() as int).skip(
        14,
    );
    assert(c1.len() == c2.len());
    assert(c1 =~= rest4.take(c1.len() as int));
    assert(c2 =~= rest4.take(c2.len() as int));
}

/// Read a JSON online status back into its three fields. The parse
/// succeeds exactly on the library's own serialisations of quote-free
/// fields, and returns those fields.
#[verifier::rlimit(100)]
pub fn parse_status_json(data: &[u8]) -> (r: Option<(Vec<u8>, bool, Vec<u8>)>)
    ensures
        r matches Some(out) ==> is_status_json(data@, out.0@, out.1, out.2@),
        r is None ==> forall|e: Seq<u8>, b: bool, c: Seq<u8>| !is_status_json(data@, e, b, c),
{
    let ip_open: [u8; 7] = [123, 34, 105, 112, 34, 58, 34];
    proof {
        assert(ip_open@ =~= json_ip_open());
    }
    if !starts_with(data, ip_open.as_slice()) {
        proof {
            assert forall|e: Seq<u8>, b: bool, c: Seq<u8>| !is_status_json(data@, e, b, c) by {
                if is_status_json(data@, e, b, c) {
                    lemma_json_decompose(data@, e, b, c);
                }
            }
        }
        return None;
    }
    let t7 = tail_from(data, 7);
    let qe_found = crate::bytes::find_byte(t7.as_slice(), 34);
    proof {
        crate::bytes::lemma_find_byte(t7@, 34);
    }
    let qe = match qe_found {
        Some(k) => k,
        None => {
            proof {
                assert forall|e: Seq<u8>, b: bool, c: Seq<u8>| !is_status_json(data@, e, b, c) by {
                    if is_status_json(data@, e, b, c) {
                        lemma_json_decompose(data@, e, b, c);
                    }
                }
            }
            return None;
        },
    };
    let endpoint = crate::bytes::head_to(t7.as_slice(), qe);
    let rest1 = tail_from(t7.as_slice(), qe);
    let status_mid: [u8; 11] = [34, 44, 34, 115, 116, 97, 116, 117, 115, 34, 58];
    proof {
        assert(status_mid@ =~= json_status_mid());
    }
    if !starts_with(rest1.as_slice(), status_mid.as_slice()) {
        proof {
            assert forall|e: Seq<u8>, b: bool, c: Seq<u8>| !is_status_json(data@, e, b, c) by {
                if is_status_json(data@, e, b, c) {
                    lemma_json_decompose(data@, e, b, c);
                    assert(qe == e.len());
                    assert(rest1@.take(11) =~= json_status_mid());
                }
            }
        }
        return None;
    }
    let rest2 = tail_from(rest1.as_slice(), 11);
    let true_lit: [u8; 4] = [116, 114, 117, 101];
    let false_lit: [u8; 5] = [102, 97, 108, 115, 101];
    let is_true = starts_with(rest2.as_slice(), true_lit.as_slice());
    let is_false = starts_with(rest2.as_slice(), false_lit.as_slice());
    proof {
        assert(true_lit@ =~= bool_text(true));
        assert(false_lit@ =~= bool_text(false));
    }
    if !is_true && !is_false {
        proof {
            assert forall|e: Seq<u8>, b: bool, c: Seq<u8>| !is_status_json(data@, e, b, c) by {
                if is_status_json(data@, e, b, c) {
                    lemma_json_decompose(data@, e, b, c);
                    lemma_json_bool(data@, e, b, c);
                    assert(qe == e.len());
                    assert(rest2@ == data@.skip(7).skip(e.len() as int).skip(11));
                }
            }
        }
        return None;
    }
    let online: bool = is_true;
    let rest3: Vec<u8> = if is_true {
        tail_from(rest2.as_slice(), 4)
    } else {
        tail_from(rest2.as_slice(), 5)
    };
    let client_mid: [u8; 14] = [44, 34, 99, 108, 105, 101, 110, 116, 95, 105, 100, 34, 58, 34];
    proof {
        assert(client_mid@ =~= json_client_mid());
    }
    if !starts_with(rest3.as_slice(), client_mid.as_slice()) {
        proof {
            assert forall|e: Seq<u8>, b: bool, c: Seq<u8>| !is_status_json(data@, e, b, c) by {
                if is_status_json(data@, e, b, c) {
                    lemma_json_decompose(data@, e, b, c);
                    lemma_json_bool(data@, e, b, c);
                    lemma_json_owner(data@, e, b, c);
                    assert(qe == e.len());
                    assert(rest2@ == data@.skip(7).skip(e.len() as int).skip(11));
                    assert(b == online);
                    assert(rest3@ == data@.skip(7).skip(e.len() as int).skip(11).skip(
                        bool_text(b).len() as int,
                    ));
                }
            }
        }
        return None;
    }
    let rest4 = tail_from(rest3.as_slice(), 14);
    let qc_found = crate::bytes::find_byte(rest4.as_slice(), 34);
    proof {
        crate::bytes::lemma_find_byte(rest4@, 34);
    }
    let qc = match qc_found {
        Some(k) => k,
        None => {
            proof {
                assert forall|e: Seq<u8>, b: bool, c: Seq<u8>| !is_status_json(data@, e, b, c) by {
                    if is_status_json(data@, e, b, c) {
                        lemma_json_decompose(data@, e, b, c);
                        lemma_json_bool(data@, e, b, c);
                        lemma_json_owner(data@, e, b, c);
                        assert(qe == e.len());
                        assert(rest2@ == data@.skip(7).skip(e.len() as int).skip(11));
                        assert(b == online);
                        assert(rest4@ == data@.skip(7).skip(e.len() as int).skip(11).skip(
                            bool_text(b).len() as int,
                        ).skip(14));
                    }
                }
            }
            return None;
        },
    };
    let owner = crate::bytes::head_to(rest4.as_slice(), qc);
    let rest5 = tail_from(rest4.as_slice(), qc);
    let close: [u8; 2] = [34, 125];
    proof {
        assert(close@ =~= json_close());
    }
    if !bytes_eq(rest5.as_slice(), close.as_slice()) {
        proof {
            assert forall|e: Seq<u8>, b: bool, c: Seq<u8>| !is_status_json(data@, e, b, c) by {
                if is_status_json(data@, e, b, c) {
                    lemma_json_decompose(data@, e, b, c);
                    lemma_json_bool(data@, e, b, c);
                    lemma_json_owner(data@, e, b, c);
                    assert(qe == e.len());
                    assert(rest2@ == data@.skip(7).skip(e.len() as int).skip(11));
                    assert(b == online);
                    assert(rest4@ == data@.skip(7).skip(e.len() as int).skip(11).skip(
                        bool_text(b).len() as int,
                    ).skip(14));
                    assert(qc == c.len());
                    assert(rest5@ == rest4@.skip(c.len() as int));
                }
            }
        }
        return None;
    }
    proof {
        assert(data@ =~= data@.take(7) + t7@);
        assert(t7@ =~= endpoint@ + rest1@);
        assert(rest1@ =~= rest1@.take(11) + rest2@);
        assert(rest2@ =~= bool_text(online) + rest3@) by {
            if online {
                assert(rest2@.take(4) =~= bool_text(true));
                assert(rest2@ =~= rest2@.take(4) + rest2@.skip(4));
            } else {
                assert(rest2@.take(5) =~= bool_text(false));
                assert(rest2@ =~= rest2@.take(5) + rest2@.skip(5));
            }
        }
        assert(rest3@ =~= rest3@.take(14) + rest4@);
        assert(rest4@ =~= owner@ + rest5@);
        assert(data@ =~= status_json(endpoint@, online, owner@));
    }
    Some((endpoint, online, owner))
}

/// Write the bare `ELECT` request.
pub fn elect_bytes() -> (r: Vec<u8>)
    ensures
        r@ == elect_lit(),
{
    let lit: [u8; 5] = [69, 76, 69, 67, 84];
    let mut r: Vec<u8> = Vec::new();
    append_slice(&mut r, lit.as_slice());
    assert(r@ =~= elect_lit());
    r
}

/// Write the bare `FAIL` hit.
pub fn fail_bytes() -> (r: Vec<u8>)
    ensures
        r@ == fail_lit(),
{
    let lit: [u8; 4] = [70, 65, 73, 76];
    let mut r: Vec<u8> = Vec::new();
    append_slice(&mut r, lit.as_slice());
    assert(r@ =~= fail_lit());
    r
}

/// Write the bare `Request_DOS` request.
pub fn request_dos_bytes() -> (r: Vec<u8>)
    ensures
        r@ == request_dos_lit(),
{
    let lit: [u8; 11] = [82, 101, 113, 117, 101, 115, 116, 95, 68, 79, 83];
    let mut r: Vec<u8> = Vec::new();
    append_slice(&mut r, lit.as_slice());
    assert(r@ =~= request_dos_lit());
    r
}

/// Write the bare `END_SAMPLES` close.
pub fn end_samples_bytes() -> (r: Vec<u8>)
    ensures
        r@ == end_samples_lit(),
{
    let lit: [u8; 11] = [69, 78, 68, 95, 83, 65, 77, 80, 76, 69, 83];
    let mut r: Vec<u8> = Vec::new();
    append_slice(&mut r, lit.as_slice());
    assert(r@ =~= end_samples_lit());
    r
}

/// Write the bare `SAMPLES_DONE` close.
pub fn samples_done_bytes() -> (r: Vec<u8>)
    ensures
        r@ == samples_done_lit(),
{
    let lit: [u8; 12] = [83, 65, 77, 80, 76, 69, 83, 95, 68, 79, 78, 69];
    let mut r: Vec<u8> = Vec::new();
    append_slice(&mut r, lit.as_slice());
    assert(r@ =~= samples_done_lit());
    r
}

/// Write the bare `NO_SAMPLES` answer.
pub fn no_samples_bytes() -> (r: Vec<u8>)
    ensures
        r@ == no_samples_lit(),
{
    let lit: [u8; 10] = [78, 79, 95, 83, 65, 77, 80, 76, 69, 83];
    let mut r: Vec<u8> = Vec::new();
    append_slice(&mut r, lit.as_slice());
    assert(r@ =~= no_samples_lit());
    r
}

/// Prefix a message body with a tag.
pub fn format_tagged(tag: &[u8], rest: &[u8]) -> (r: Vec<u8>)
    ensures
        r@ == tag@ + rest@,
{
    let mut r: Vec<u8> = Vec::new();
    append_slice(&mut r, tag);
    append_slice(&mut r, rest);
    r
}

/// `STATUS:<json>`: the beacon a client sends a replica.
pub fn format_status_beacon(endpoint: &[u8], online: bool, owner: &[u8]) -> (r: Vec<u8>)
    ensures
        r@ == tagged(status_prefix(), status_json(endpoint@, online, owner@)),
{
    let tag: [u8; 7] = [83, 84, 65, 84, 85, 83, 58];
    let body = format_status_json(endpoint, online, owner);
    format_tagged(tag.as_slice(), body.as_slice())
}

/// `DIR_OF_SERV:<json>`: one record gossiped to a peer replica.
pub fn format_dir_of_serv(endpoint: &[u8], online: bool, owner: &[u8]) -> (r: Vec<u8>)
    ensures
        r@ == tagged(dir_of_serv_prefix(), status_json(endpoint@, online, owner@)),
{
    let tag: [u8; 12] = [68, 73, 82, 95, 79, 70, 95, 83, 69, 82, 86, 58];
    let body = format_status_json(endpoint, online, owner);
    format_tagged(tag.as_slice(), body.as_slice())
}

/// `STATUS_ACK:<addr>`.
pub fn format_status_ack(addr: &[u8]) -> (r: Vec<u8>)
    ensures
        r@ == tagged(status_ack_prefix(), addr@),
{
    let tag: [u8; 11] = [83, 84, 65, 84, 85, 83, 95, 65, 67, 75, 58];
    format_tagged(tag.as_slice(), addr)
}

/// `LEADER_ACK:<addr>`.
pub fn format_leader_ack(addr: &[u8]) -> (r: Vec<u8>)
    ensures
        r@ == tagged(leader_ack_prefix(), addr@),
{
    let tag: [u8; 11] = [76, 69, 65, 68, 69, 82, 95, 65, 67, 75, 58];
    format_tagged(tag.as_slice(), addr)
}

/// `DOS:<csv>`.
pub fn format_dos(body: &[u8]) -> (r: Vec<u8>)
    ensures
        r@ == tagged(dos_prefix(), body@),
{
    let tag: [u8; 4] = [68, 79, 83, 58];
    format_tagged(tag.as_slice(), body)
}

/// `<tag><owner>:<name>` for the three sample metadata tags.
fn format_sample_parts(tag: &[u8], owner: &[u8], name: &[u8]) -> (r: Vec<u8>)
    ensures
        r@ == tag@ + owner@ + seq![58u8] + name@,
{
    let mut r: Vec<u8> = Vec::new();
    append_slice(&mut r, tag);
    append_slice(&mut r, owner);
    r.push(58);
    append_slice(&mut r, name);
    assert(r@ =~= tag@ + owner@ + seq![58u8] + name@);
    r
}

/// `SAMPLE_UPLOAD:<owner>:<name>`.
pub fn format_sample_upload(owner: &[u8], name: &[u8]) -> (r: Vec<u8>)
    ensures
        r@ == sample_upload_prefix() + owner@ + seq![58u8] + name@,
{
    let tag: [u8; 14] = [83, 65, 77, 80, 76, 69, 95, 85, 80, 76, 79, 65, 68, 58];
    format_sample_parts(tag.as_slice(), owner, name)
}

/// `SAMPLE_SYNC:<owner>:<name>`.
pub fn format_sample_sync(owner: &[u8], name: &[u8]) -> (r: Vec<u8>)
    ensures
        r@ == sample_sync_prefix() + owner@ + seq![58u8] + name@,
{
    let tag: [u8; 12] = [83, 65, 77, 80, 76, 69, 95, 83, 89, 78, 67, 58];
    format_sample_parts(tag.as_slice(), owner, name)
}

/// `SAMPLE:<owner>:<name>`.
pub fn format_sample(owner: &[u8], name: &[u8]) -> (r: Vec<u8>)
    ensures
        r@ == sample_prefix() + owner@ + seq![58u8] + name@,
{
    let tag: [u8; 7] = [83, 65, 77, 80, 76, 69, 58];
    format_sample_parts(tag.as_slice(), owner, name)
}

/// `REQUEST_IMAGE_FROM<requester>:<image>`.
pub fn format_request_image(requester: &[u8], image: &[u8]) -> (r: Vec<u8>)
    ensures
        r@ == request_image_prefix() + requester@ + seq![58u8] + image@,
{
    let tag: [u8; 18] = [82, 69, 81, 85, 69, 83, 84, 95, 73, 77, 65, 71, 69, 95, 70, 82, 79, 77];
    format_sample_parts(tag.as_slice(), requester, image)
}

/// `CONTROL_UPDATE:<client>:<image>:<views>`.
pub fn format_control_update(client: &[u8], image: &[u8], views: &[u8]) -> (r: Vec<u8>)
    ensures
        r@ == control_update_prefix() + client@ + seq![58u8] + image@ + seq![58u8] + views@,
{
    let tag: [u8; 15] = [67, 79, 78, 84, 82, 79, 76, 95, 85, 80, 68, 65, 84, 69, 58];
    let mut r: Vec<u8> = Vec::new();
    append_slice(&mut r, tag.as_slice());
    append_slice(&mut r, client);
    r.push(58);
    append_slice(&mut r, image);
    r.push(58);
    append_slice(&mut r, views);
    assert(r@ =~= control_update_prefix() + client@ + seq![58u8] + image@ + seq![58u8] + views@);
    r
}

/// `Access_Control:<client>_<peer>_<imageA>_<imageB>_<views>`.
pub fn format_access_control(
    client: &[u8],
    peer: &[u8],
    image_a: &[u8],
    image_b: &[u8],
    views: &[u8],
) -> (r: Vec<u8>)
    ensures
        r@ == access_control_prefix() + client@ + seq![95u8] + peer@ + seq![95u8] + image_a@
            + seq![95u8] + image_b@ + seq![95u8] + views@,
{
    let tag: [u8; 15] = [65, 99, 99, 101, 115, 115, 95, 67, 111, 110, 116, 114, 111, 108, 58];
    let mut r: Vec<u8> = Vec::new();
    append_slice(&mut r, tag.as_slice());
    append_slice(&mut r, client);
    r.push(95);
    append_slice(&mut r, peer);
    r.push(95);
    append_slice(&mut r, image_a);
    r.push(95);
    append_slice(&mut r, image_b);
    r.push(95);
    append_slice(&mut r, views);
    assert(r@ =~= access_control_prefix() + client@ + seq![95u8] + peer@ + seq![95u8] + image_a@
        + seq![95u8] + image_b@ + seq![95u8] + views@);
    r
}

/// `TOTAL_CHUNKS:<n>`.
pub fn format_total_chunks(n: u32) -> (r: Vec<u8>)
    ensures
        r@ == total_chunks_prefix() + dec_repr(n as int),
{
    let tag: [u8; 13] = [84, 79, 84, 65, 76, 95, 67, 72, 85, 78, 75, 83, 58];
    let digits = u32_dec(n);
    format_tagged(tag.as_slice(), digits.as_slice())
}

/// `IMAGE_NOT_FOUND:<image>`.
pub fn format_image_not_found(image: &[u8]) -> (r: Vec<u8>)
    ensures
        r@ == tagged(image_not_found_prefix(), image@),
{
    let tag: [u8; 16] = [73, 77, 65, 71, 69, 95, 78, 79, 84, 95, 70, 79, 85, 78, 68, 58];
    format_tagged(tag.as_slice(), image)
}

/// `ACK:<n>`, the per-chunk acknowledgment of the peer-transfer path.
pub fn format_ack_idx(n: u32) -> (r: Vec<u8>)
    ensures
        r@ == ack_colon_prefix() + dec_repr(n as int),
{
    let tag: [u8; 4] = [65, 67, 75, 58];
    let digits = u32_dec(n);
    format_tagged(tag.as_slice(), digits.as_slice())
}

/// `NACK:<n>`, the per-chunk refusal of the peer-transfer path.
pub fn format_nack_idx(n: u32) -> (r: Vec<u8>)
    ensures
        r@ == nack_colon_prefix() + dec_repr(n as int),
{
    let tag: [u8; 5] = [78, 65, 67, 75, 58];
    let digits = u32_dec(n);
    format_tagged(tag.as_slice(), digits.as_slice())
}

} // verus!
