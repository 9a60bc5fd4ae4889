//! The client orchestrator's decisions: the authentication gate, the menu
//! dispatch, the random choice of an assistant replica, the P2P listener's
//! answers, and the view gate that ties stego metadata to the local view
//! budget. Sockets, files and the terminal stay outside the library.

use vstd::prelude::*;
use vstd::string::StringSliceAdditionalSpecFns;

use crate::bytes::all_digits;
use crate::bytes::dec_value;
use crate::bytes::find_byte_spec;
use crate::bytes::u32_be;
use crate::bytes::push_u32_be;
use crate::fetch::sized_chunk;
use crate::fetch::sized_chunks;
use crate::messages::elect_lit;
use crate::messages::elect_bytes;
use crate::views::ImageId;
use crate::views::ViewError;
use crate::views::ViewStore;
use crate::views::parse_image_id;
use crate::views::set_views_model;
use crate::bytes::parse_u32_dec;

verus! {

/// Lower-case an ASCII letter; anything else is unchanged.
pub open spec fn ascii_lower(b: u8) -> u8 {
    if 65 <= b <= 90 {
        (b + 32) as u8
    } else {
        b
    }
}

/// Index of the last `.` in a file name, or `-1` if there is none.
pub open spec fn last_dot(s: Seq<u8>) -> int
    decreases s.len(),
{
    if s.len() == 0 {
        -1
    } else if s.last() == 46 {
        s.len() - 1
    } else {
        last_dot(s.drop_last())
    }
}

/// The name has an image extension: something before a final dot, and
/// `png`, `jpg`, `jpeg` or `gif` (in any case) after it.
pub open spec fn is_image_name(s: Seq<u8>) -> bool {
    let k = last_dot(s);
    &&& k > 0
    &&& ({
        let ext = Seq::new((s.len() - k - 1) as nat, |i: int| ascii_lower(s[k + 1 + i]));
        ext == seq![112u8, 110u8, 103u8] || ext == seq![106u8, 112u8, 103u8] || ext == seq![
            106u8,
            112u8,
            101u8,
            103u8,
        ] || ext == seq![103u8, 105u8, 102u8]
    })
}

proof fn lemma_last_dot_at(s: Seq<u8>, i: int)
    requires
        0 <= i < s.len(),
        s[i] == 46,
        forall|j: int| i < j < s.len() ==> s[j] != 46,
    ensures
        last_dot(s) == i,
    decreases s.len(),
{
    if i < s.len() - 1 {
        assert(forall|j: int|
            #![trigger s[j]]
            #![trigger s.drop_last()[j]]
            0 <= j < s.len() - 1 ==> s.drop_last()[j] == s[j]);
        lemma_last_dot_at(s.drop_last(), i);
    }
}

proof fn lemma_last_dot_none(s: Seq<u8>)
    requires
        forall|j: int| 0 <= j < s.len() ==> s[j] != 46,
    ensures
        last_dot(s) == -1,
    decreases s.len(),
{
    if s.len() > 0 {
        assert(forall|j: int|
            #![trigger s[j]]
            #![trigger s.drop_last()[j]]
            0 <= j < s.len() - 1 ==> s.drop_last()[j] == s[j]);
        lemma_last_dot_none(s.drop_last());
    }
}

/// Whether a file name carries an image extension (`png`, `jpg`, `jpeg`
/// or `gif`, case-insensitively).
pub fn is_image_file(file_name: &str) -> (r: bool)
    ensures
        r == is_image_name(file_name.spec_bytes()),
{
    let bytes = file_name.as_bytes();
    let n = bytes.len();
    let mut i: usize = n;
    while i > 0
        invariant
            i <= n,
            n == bytes@.len(),
            bytes@ == file_name.spec_bytes(),
            forall|j: int| i <= j < n ==> bytes@[j] != 46,
        decreases i,
    {
        if bytes[i - 1] == 46 {
            proof {
                lemma_last_dot_at(bytes@, i as int - 1);
            }
            if i == 1 {
                return false;
            }
            let mut ext: Vec<u8> = Vec::new();
            let mut j: usize = i;
            while j < n
                invariant
                    i <= j <= n,
                    n == bytes@.len(),
                    ext@ == Seq::new(
                        (j - i) as nat,
                        |k: int| ascii_lower(bytes@[i as int + k]),
                    ),
                decreases n - j,
            {
                let b = bytes[j];
                let low: u8 = if 65 <= b && b <= 90 {
                    b + 32
                } else {
                    b
                };
                ext.push(low);
                proof {
                    assert(ext@ =~= Seq::new(
                        (j + 1 - i) as nat,
                        |k: int| ascii_lower(bytes@[i as int + k]),
                    ));
                }
                j = j + 1;
            }
            let png: [u8; 3] = [112, 110, 103];
            let jpg: [u8; 3] = [106, 112, 103];
            let jpeg: [u8; 4] = [106, 112, 101, 103];
            let gif: [u8; 3] = [103, 105, 102];
            proof {
                let k = last_dot(bytes@);
                assert(ext@ =~= Seq::new(
                    (bytes@.len() - k - 1) as nat,
                    |t: int| ascii_lower(bytes@[k + 1 + t]),
                ));
            }
            let hit = crate::bytes::bytes_eq(ext.as_slice(), png.as_slice())
                || crate::bytes::bytes_eq(ext.as_slice(), jpg.as_slice())
                || crate::bytes::bytes_eq(ext.as_slice(), jpeg.as_slice())
                || crate::bytes::bytes_eq(ext.as_slice(), gif.as_slice());
            proof {
                assert(png@ =~= seq![112u8, 110u8, 103u8]);
                assert(jpg@ =~= seq![106u8, 112u8, 103u8]);
                assert(jpeg@ =~= seq![106u8, 112u8, 101u8, 103u8]);
                assert(gif@ =~= seq![103u8, 105u8, 102u8]);
            }
            return hit;
        }
        i = i - 1;
    }
    proof {
        lemma_last_dot_none(bytes@);
    }
    false
}

/// What the authentication gate decides.
#[derive(Clone, Copy, Debug, PartialEq, Eq, Structural)]
pub enum AuthOutcome {
    /// The stored identifier file matches: already registered.
    AlreadyRegistered,
    /// No match; the user chose `r`: create the identifier file.
    Register,
    /// No match; the user chose `l`: log in with a typed identifier.
    Login,
    /// No match and no usable choice.
    Refused,
}

/// The authentication gate: an identifier file that matches the expected
/// identifier passes at once; otherwise the user's one-letter choice picks
/// registration or login, case-insensitively, and anything else refuses.
pub fn auth_decision(stored_uid: Option<&Vec<u8>>, expected_uid: &Vec<u8>, choice: &[u8]) -> (r:
    AuthOutcome)
    ensures
        r is AlreadyRegistered <==> (stored_uid matches Some(s) && s@ == expected_uid@),
        r is Register <==> !(stored_uid matches Some(s) && s@ == expected_uid@) && choice@.len()
            == 1 && ascii_lower(choice@[0]) == 114,
        r is Login <==> !(stored_uid matches Some(s) && s@ == expected_uid@) && choice@.len() == 1
            && ascii_lower(choice@[0]) == 108,
{
    match stored_uid {
        Some(s) => {
            if crate::bytes::bytes_eq(s.as_slice(), expected_uid.as_slice()) {
                return AuthOutcome::AlreadyRegistered;
            }
        },
        None => {},
    }
    if choice.len() == 1 {
        let b = choice[0];
        let low: u8 = if 65 <= b && b <= 90 {
            b + 32
        } else {
            b
        };
        if low == 114 {
            return AuthOutcome::Register;
        }
        if low == 108 {
            return AuthOutcome::Login;
        }
    }
    AuthOutcome::Refused
}

/// A menu letter, case-insensitively.
#[derive(Clone, Copy, Debug, PartialEq, Eq, Structural)]
pub enum MenuCommand {
    /// `R`: request an image from a peer.
    RequestImage,
    /// `D`: fetch the directory of service and the samples.
    FetchDirectory,
    /// `V`: view a received image, spending one view.
    ViewImage,
    /// `C`: change a viewer's access rights.
    ChangeAccess,
    /// `E`: exit, going offline.
    Exit,
    /// Anything else: re-prompt.
    Invalid,
}

/// Dispatch one trimmed menu line.
pub fn menu_command(input: &[u8]) -> (r: MenuCommand)
    ensures
        r is RequestImage <==> input@.len() == 1 && ascii_lower(input@[0]) == 114,
        r is FetchDirectory <==> input@.len() == 1 && ascii_lower(input@[0]) == 100,
        r is ViewImage <==> input@.len() == 1 && ascii_lower(input@[0]) == 118,
        r is ChangeAccess <==> input@.len() == 1 && ascii_lower(input@[0]) == 99,
        r is Exit <==> input@.len() == 1 && ascii_lower(input@[0]) == 101,
{
    if input.len() != 1 {
        return MenuCommand::Invalid;
    }
    let b = input[0];
    let low: u8 = if 65 <= b && b <= 90 {
        b + 32
    } else {
        b
    };
    if low == 114 {
        MenuCommand::RequestImage
    } else if low == 100 {
        MenuCommand::FetchDirectory
    } else if low == 118 {
        MenuCommand::ViewImage
    } else if low == 99 {
        MenuCommand::ChangeAccess
    } else if low == 101 {
        MenuCommand::Exit
    } else {
        MenuCommand::Invalid
    }
}

/// Relies on `rand::random_range`: the result lies in the given range.
/// Nothing more is assumed of it.
#[verifier::external_body]
fn random_below(n: usize) -> (r: usize)
    requires
        n > 0,
    ensures
        r < n,
{
    rand::random_range(0..n)
}

/// Pick an assistant replica at random, as the beacon loop does after a
/// timeout.
pub fn pick_assistant(servers: &Vec<Vec<u8>>) -> (r: Vec<u8>)
    requires
        servers@.len() > 0,
    ensures
        exists|i: int| 0 <= i < servers@.len() && r@ == (#[trigger] servers@[i])@,
{
    let i = random_below(servers.len());
    let r = servers[i].clone();
    assert(r@ == servers@[i as int]@);
    r
}

/// The `ELECT` broadcast: one datagram per replica.
pub fn elect_broadcast(servers: &Vec<Vec<u8>>) -> (r: Vec<(Vec<u8>, Vec<u8>)>)
    ensures
        r@.len() == servers@.len(),
        forall|j: int|
            0 <= j < servers@.len() ==> (#[trigger] r@[j]).0@ == servers@[j]@ && r@[j].1@
                == elect_lit(),
{
    let mut out: Vec<(Vec<u8>, Vec<u8>)> = Vec::new();
    let mut j: usize = 0;
    while j < servers.len()
        invariant
            j <= servers@.len(),
            out@.len() == j,
            forall|k: int|
                0 <= k < j ==> (#[trigger] out@[k]).0@ == servers@[k]@ && out@[k].1@ == elect_lit(),
        decreases servers@.len() - j,
    {
        out.push((servers[j].clone(), elect_bytes()));
        j = j + 1;
    }
    out
}

/// Why a `CONTROL_UPDATE` was not applied.
#[derive(Clone, Copy, Debug, PartialEq, Eq, Structural)]
pub enum ControlUpdateError {
    /// The image id or the view count is not well formed.
    BadMessage,
    /// No budget file exists for this image; it is not created.
    MissingBudget,
}

/// Apply a `CONTROL_UPDATE` to the local view budgets: rewrite the counter
/// for the named image to the given value. A malformed field or a missing
/// counter file is refused and the store left unchanged.
pub fn apply_control_update(store: &mut ViewStore, image: &[u8], views_text: &[u8]) -> (r: Result<
    (),
    ControlUpdateError,
>)
    requires
        old(store).wf(),
    ensures
        final(store).wf(),
        ({
            let k = find_byte_spec(image@, 95);
            let ok = k != -1 && image@.take(k).len() > 0 && all_digits(image@.take(k)) && dec_value(
                image@.take(k),
            ) <= u32::MAX && image@.skip(k + 1).len() > 0 && all_digits(image@.skip(k + 1))
                && dec_value(image@.skip(k + 1)) <= u32::MAX && views_text@.len() > 0 && all_digits(
                views_text@,
            ) && dec_value(views_text@) <= u32::MAX;
            let id = ImageId {
                owner: dec_value(image@.take(k)) as u32,
                num: dec_value(image@.skip(k + 1)) as u32,
            };
            let v = dec_value(views_text@) as u32;
            &&& (!ok ==> *final(store) == *old(store) && r == Err::<(), ControlUpdateError>(
                ControlUpdateError::BadMessage,
            ))
            &&& (ok ==> final(store)@ == set_views_model(old(store)@, id, v))
            &&& (ok ==> (r is Ok <==> old(store)@.dom().contains(id)))
            &&& (ok && !old(store)@.dom().contains(id) ==> r == Err::<(), ControlUpdateError>(
                ControlUpdateError::MissingBudget,
            ))
        }),
{
    let id = match parse_image_id(image) {
        Some(id) => id,
        None => {
            return Err(ControlUpdateError::BadMessage);
        },
    };
    let v = match parse_u32_dec(views_text) {
        Some(v) => v,
        None => {
            return Err(ControlUpdateError::BadMessage);
        },
    };
    match store.set_views(id, v) {
        Ok(()) => Ok(()),
        Err(ViewError::Missing) => Err(ControlUpdateError::MissingBudget),
        Err(ViewError::Depleted) => Err(ControlUpdateError::MissingBudget),
    }
}

/// Frame a blob for the indexed peer transfer: 1024-byte chunks, each
/// prefixed with its big-endian index, announced by `TOTAL_CHUNKS:<n>`.
pub fn build_indexed_frames(payload: &Vec<u8>) -> (frames: Vec<Vec<u8>>)
    requires
        payload@.len() + 1023 <= usize::MAX,
        sized_chunks(payload@.len(), 1024) <= u32::MAX,
    ensures
        frames@.len() == sized_chunks(payload@.len(), 1024),
        forall|i: int|
            0 <= i < frames@.len() ==> (#[trigger] frames@[i])@ == u32_be(i as u32) + sized_chunk(
                payload@,
                1024,
                i,
            ),
{
    let len = payload.len();
    let n: usize = (len + 1023) / 1024;
    proof {
        vstd::arithmetic::div_mod::lemma_fundamental_div_mod((len + 1023) as int, 1024);
    }
    let mut frames: Vec<Vec<u8>> = Vec::new();
    let mut i: usize = 0;
    while i < n
        invariant
            n == sized_chunks(payload@.len(), 1024),
            n <= u32::MAX,
            len == payload@.len(),
            len + 1023 <= usize::MAX,
            i <= n,
            frames@.len() == i,
            forall|k: int|
                0 <= k < i ==> (#[trigger] frames@[k])@ == u32_be(k as u32) + sized_chunk(
                    payload@,
                    1024,
                    k,
                ),
        decreases n - i,
    {
        proof {
            vstd::arithmetic::div_mod::lemma_fundamental_div_mod((len + 1023) as int, 1024);
            assert(1024 * (i as int) <= 1024 * (n - 1) && 1024 * (n - 1) < len) by (
            nonlinear_arith)
                requires
                    0 <= i as int <= n - 1,
                    (len + 1023) as int == 1024 * (n as int) + ((len + 1023) as int % 1024),
                    0 <= (len + 1023) as int % 1024 < 1024,
                    len > 0 || n == 0,
            ;
        }
        let start: usize = 1024 * i;
        let end: usize = if len - start >= 1024 {
            start + 1024
        } else {
            len
        };
        let mut frame: Vec<u8> = Vec::new();
        push_u32_be(&mut frame, i as u32);
        let mut j: usize = start;
        while j < end
            invariant
                start <= j <= end <= payload@.len(),
                frame@ == u32_be(i as u32) + payload@.subrange(start as int, j as int),
            decreases end - j,
        {
            frame.push(payload[j]);
            assert(frame@ =~= u32_be(i as u32) + payload@.subrange(start as int, j as int + 1));
            j = j + 1;
        }
        assert(frame@ == u32_be(i as u32) + sized_chunk(payload@, 1024, i as int)) by {
            assert(payload@.subrange(start as int, end as int) =~= sized_chunk(
                payload@,
                1024,
                i as int,
            ));
        }
        frames.push(frame);
        i = i + 1;
    }
    frames
}

} // verus!
