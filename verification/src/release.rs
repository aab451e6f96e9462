//! Where release manifests come from, and unpacking them.

use vstd::prelude::*;
use vstd::string::StringExecFns;

use crate::number::{hex, hex_text, lemma_hex_round_trip, parse, parsed};

verus! {

/// What `zstd::bulk::decompress_to_buffer` makes of data in a buffer of `room` bytes: the bytes that
/// it writes, or the message of its error.
pub uninterp spec fn zstd_decoded(data: Seq<u8>, room: nat) -> Result<Seq<u8>, Seq<char>>;

/// Calls `zstd::bulk::decompress_to_buffer`. What it writes to the front of the buffer, and whether
/// it fails and with what message, is fixed by the data and by the length of the buffer. What the
/// buffer holds behind that, or after a failure, is left open.
#[verifier::external_body]
fn zstd_decompress(data: &[u8], room: &mut [u8]) -> (res: Result<usize, String>)
    ensures
        final(room)@.len() == old(room)@.len(),
        match res {
            Ok(n) => n <= final(room)@.len() && zstd_decoded(data@, old(room)@.len()) == Ok::<
                Seq<u8>,
                Seq<char>,
            >(final(room)@.take(n as int)),
            Err(cause) => zstd_decoded(data@, old(room)@.len()) == Err::<Seq<u8>, Seq<char>>(
                cause@,
            ),
        },
{
    match zstd::bulk::decompress_to_buffer(data, room) {
        Ok(n) => Ok(n),
        Err(e) => Err(e.to_string()),
    }
}

/// The packed body of a manifest and the length that it has unpacked.
pub struct Payload {
    pub compressed_data: Vec<u8>,
    pub uncompressed_size: usize,
}

/// Why a manifest could not be unpacked.
#[derive(Debug, PartialEq, Eq, Clone)]
pub enum UnpackError {
    /// The body is no zstd data, or longer unpacked than it says; the cause says which.
    Decompress { cause: String },
}

impl UnpackError {
    /// The message for the user.
    pub fn message(&self) -> (res: String)
        ensures
            res@ == "Failed to decompress RMAN payload"@,
    {
        "Failed to decompress RMAN payload".to_owned()
    }
}

/// What a result says: the bytes, or the cause of the failure.
pub open spec fn outcome(res: Result<Vec<u8>, UnpackError>) -> Result<Seq<u8>, Seq<char>> {
    match res {
        Ok(bytes) => Ok(bytes@),
        Err(UnpackError::Decompress { cause }) => Err(cause@),
    }
}

/// Makes a result of a buffer and of how many bytes were written to it, or why none could be.
pub fn unpacked(room: Vec<u8>, written: Result<usize, String>) -> (res: Result<
    Vec<u8>,
    UnpackError,
>)
    requires
        written matches Ok(n) ==> n <= room@.len(),
    ensures
        outcome(res) == (match written {
            Ok(n) => Ok::<Seq<u8>, Seq<char>>(room@.take(n as int)),
            Err(cause) => Err::<Seq<u8>, Seq<char>>(cause@),
        }),
{
    match written {
        Ok(n) => {
            let mut bytes = room;
            bytes.truncate(n);
            assert(bytes@ == room@.take(n as int));
            Ok(bytes)
        },
        Err(cause) => Err(UnpackError::Decompress { cause }),
    }
}

/// `res` is what unpacking the body of a manifest in as much room as it says it needs gives.
pub open spec fn unpacks(res: Result<Vec<u8>, UnpackError>, payload: Payload) -> bool {
    outcome(res) == zstd_decoded(payload.compressed_data@, payload.uncompressed_size as nat)
}

/// Unpacks the body of a manifest in as much room as it says it needs.
pub fn unpack(payload: &Payload) -> (res: Result<Vec<u8>, UnpackError>)
    requires
        payload.uncompressed_size <= isize::MAX,
    ensures
        unpacks(res, *payload),
        res matches Ok(bytes) ==> bytes@.len() <= payload.uncompressed_size,
{
    let mut room: Vec<u8> = vec![0u8; payload.uncompressed_size];
    let written = zstd_decompress(payload.compressed_data.as_slice(), room.as_mut_slice());
    unpacked(room, written)
}

/// The folder where manifests are kept.
pub const MANIFESTS_DIR: &'static str = "manifests";

/// The file name of a manifest: its id in sixteen hexadecimal digits, and `.manifest`.
pub open spec fn file_name(id: u64) -> Seq<char> {
    hex_text(id as nat, 16) + ".manifest"@
}

/// The host that serves the releases of a game, with the folder of what is public there.
pub open spec fn public_url(project: Seq<char>) -> Seq<char> {
    "https://"@ + project + ".secure.dyn.riotcdn.net/channels/public"@
}

/// The address of a manifest.
pub open spec fn release_url(project: Seq<char>, id: u64) -> Seq<char> {
    public_url(project) + "/releases/"@ + file_name(id)
}

/// The file name of a manifest.
pub fn manifest_file_name(id: u64) -> (res: String)
    ensures
        res@ == file_name(id),
{
    let mut res = hex(id, 16);
    res.append(".manifest");
    res
}

/// The address under which the bundles of a game are.
pub fn bundle_base_url(game: &str) -> (res: String)
    ensures
        res@ == public_url(game@),
{
    let mut res = "https://".to_owned();
    res.append(game);
    res.append(".secure.dyn.riotcdn.net/channels/public");
    res
}

/// The address of a manifest.
pub fn manifest_url(project: &str, id: u64) -> (res: String)
    ensures
        res@ == release_url(project@, id),
{
    let mut res = bundle_base_url(project);
    res.append("/releases/");
    res.append(manifest_file_name(id).as_str());
    res
}

/// How a manifest is to be had.
pub enum FetchPlan {
    /// Read the file of this name in the folder of manifests.
    Read { file: String },
    /// Download the manifest, and keep it under this name.
    Download { url: String, keep_as: String },
}

/// The plan for a manifest: from the disk if it is there, else from the network.
pub open spec fn plans(plan: FetchPlan, id: u64, project: Seq<char>, on_disk: bool) -> bool {
    match plan {
        FetchPlan::Read { file } => on_disk && file@ == file_name(id),
        FetchPlan::Download { url, keep_as } => !on_disk && url@ == release_url(project, id)
            && keep_as@ == file_name(id),
    }
}

/// Plans how to get a manifest.
pub fn plan_fetch(id: u64, project: &str, on_disk: bool) -> (plan: FetchPlan)
    ensures
        plans(plan, id, project@, on_disk),
{
    let file = manifest_file_name(id);
    if on_disk {
        FetchPlan::Read { file }
    } else {
        FetchPlan::Download { url: manifest_url(project, id), keep_as: file }
    }
}

/// The id that hexadecimal digits name; 0 for anything else.
pub open spec fn id_named(text: Seq<char>) -> u64 {
    match parsed(text, 16) {
        Some(n) => n,
        None => 0,
    }
}

/// The id that a catalog lists a manifest under, in hexadecimal digits; 0 for anything else.
pub fn manifest_id(text: &str) -> (id: u64)
    ensures
        id == id_named(text@),
{
    match parse(text, 16) {
        Some(n) => n,
        None => 0,
    }
}

/// Different manifests have different file names, and the digits in a name are read back as the
/// id.
pub proof fn law_file_names_identify_manifests(a: u64, b: u64)
    ensures
        file_name(a) == file_name(b) ==> a == b,
        parsed(file_name(a).take(16), 16) == Some(a),
{
    lemma_hex_round_trip(a);
    lemma_hex_round_trip(b);
    assert(file_name(a).take(16) == hex_text(a as nat, 16));
    assert(file_name(b).take(16) == hex_text(b as nat, 16));
}

/// The name of the file that a plan reads, or that it leaves behind.
pub open spec fn stored_as(plan: FetchPlan) -> Seq<char> {
    match plan {
        FetchPlan::Read { file } => file@,
        FetchPlan::Download { url, keep_as } => keep_as@,
    }
}

/// A manifest that was fetched once is read from the disk from then on, from the same file,
/// whatever game asks for it.
pub proof fn law_kept_manifest_is_read_back(
    first: FetchPlan,
    later: FetchPlan,
    id: u64,
    project: Seq<char>,
    other: Seq<char>,
    on_disk: bool,
)
    requires
        plans(first, id, project, on_disk),
        plans(later, id, other, true),
    ensures
        later is Read,
        stored_as(first) == stored_as(later),
{
}

/// A body that is unpacked twice gives the same bytes, or fails for the same cause.
pub proof fn law_same_body_unpacks_the_same(
    one: Payload,
    other: Payload,
    a: Result<Vec<u8>, UnpackError>,
    b: Result<Vec<u8>, UnpackError>,
)
    requires
        one.compressed_data@ == other.compressed_data@,
        one.uncompressed_size == other.uncompressed_size,
        unpacks(a, one),
        unpacks(b, other),
    ensures
        outcome(a) == outcome(b),
{
}

/// Fetching a manifest once more gives the same bytes without the network: while the folder of
/// manifests still holds what the first fetch got, the later one, for whatever game, reads that,
/// and however the body is found in it, unpacking it gives what it gave the first time.
pub proof fn law_fetching_again_gives_the_same(
    first: FetchPlan,
    later: FetchPlan,
    id: u64,
    project: Seq<char>,
    other: Seq<char>,
    on_disk: bool,
    got: Seq<u8>,
    folder: Map<Seq<char>, Seq<u8>>,
    body: spec_fn(Seq<u8>) -> Payload,
    a: Result<Vec<u8>, UnpackError>,
    b: Result<Vec<u8>, UnpackError>,
)
    requires
        plans(first, id, project, on_disk),
        plans(later, id, other, true),
        folder.contains_key(stored_as(first)),
        folder[stored_as(first)] == got,
        unpacks(a, body(got)),
        unpacks(b, body(folder[stored_as(later)])),
    ensures
        later is Read,
        folder.contains_key(stored_as(later)),
        outcome(a) == outcome(b),
{
    law_kept_manifest_is_read_back(first, later, id, project, other, on_disk);
    law_same_body_unpacks_the_same(body(got), body(folder[stored_as(later)]), a, b);
}

/// The address of the files of a game is that of a secure server whose name begins with the game.
/// That of a manifest is below it, and ends in its file name.
pub proof fn law_addresses_name_game_and_manifest(project: Seq<char>, id: u64)
    ensures
        public_url(project).take(8) == "https://"@,
        public_url(project).subrange(8, 8 + project.len() as int) == project,
        public_url(project).skip(8 + project.len() as int)
            == ".secure.dyn.riotcdn.net/channels/public"@,
        release_url(project, id).take(public_url(project).len() as int) == public_url(project),
        release_url(project, id).skip(release_url(project, id).len() - 25) == file_name(id),
        release_url(project, id).subrange(
            public_url(project).len() as int,
            release_url(project, id).len() - 25,
        ) == "/releases/"@,
        file_name(id).len() == 25,
        parsed(file_name(id).take(16), 16) == Some(id),
        file_name(id).skip(16) == ".manifest"@,
{
    lemma_hex_round_trip(id);
    reveal_strlit("https://");
    reveal_strlit(".manifest");
    reveal_strlit("/releases/");
    let base = public_url(project);
    let url = release_url(project, id);
    assert(file_name(id).take(16) =~= hex_text(id as nat, 16));
    assert(file_name(id).skip(16) =~= ".manifest"@);
    assert(base.take(8) =~= "https://"@);
    assert(base.subrange(8, 8 + project.len() as int) =~= project);
    assert(base.skip(8 + project.len() as int) =~= ".secure.dyn.riotcdn.net/channels/public"@);
    assert(url.take(base.len() as int) =~= base);
    assert(url.skip(url.len() - 25) =~= file_name(id));
    assert(url.subrange(base.len() as int, url.len() - 25) =~= "/releases/"@);
}

/// Different games, and different manifests, have different addresses.
pub proof fn law_addresses_differ(a: Seq<char>, b: Seq<char>, x: u64, y: u64)
    ensures
        public_url(a) == public_url(b) ==> a == b,
        release_url(a, x) == release_url(b, y) ==> a == b && x == y,
{
    law_addresses_name_game_and_manifest(a, x);
    law_addresses_name_game_and_manifest(b, y);
    law_file_names_identify_manifests(x, y);
    if public_url(a) == public_url(b) {
        assert(public_url(a).len() == a.len() + public_url(Seq::empty()).len());
        assert(public_url(b).len() == b.len() + public_url(Seq::empty()).len());
    }
    if release_url(a, x) == release_url(b, y) {
        let n = release_url(a, x).len() - 25 - "/releases/"@.len();
        assert(public_url(a) == release_url(a, x).take(n));
        assert(public_url(b) == release_url(b, y).take(n));
        assert(public_url(a).len() == a.len() + public_url(Seq::empty()).len());
        assert(public_url(b).len() == b.len() + public_url(Seq::empty()).len());
    }
}

/// A manifest is read from the disk if it is there, and is downloaded from its own address if not.
pub proof fn law_disk_comes_before_network(
    plan: FetchPlan,
    id: u64,
    project: Seq<char>,
    on_disk: bool,
)
    requires
        plans(plan, id, project, on_disk),
    ensures
        plan is Read <==> on_disk,
        stored_as(plan) == file_name(id),
        plan matches FetchPlan::Download { url, keep_as } ==> url@ == release_url(project, id),
{
}

/// The digits of an id name it, and what are no hexadecimal digits names the id 0.
pub proof fn law_ids_are_named_by_their_digits(id: u64, text: Seq<char>)
    ensures
        id_named(file_name(id).take(16)) == id,
        parsed(text, 16) matches Some(n) ==> id_named(text) == n,
        parsed(text, 16) is None ==> id_named(text) == 0,
{
    law_file_names_identify_manifests(id, id);
}

/// Unpacking a body gives exactly the bytes that decoding it in as much room as it states gives,
/// or fails with the cause that decoding gives.
pub proof fn law_unpacking_is_decoding(
    res: Result<Vec<u8>, UnpackError>,
    payload: Payload,
    bytes: Seq<u8>,
    cause: Seq<char>,
)
    requires
        unpacks(res, payload),
    ensures
        zstd_decoded(payload.compressed_data@, payload.uncompressed_size as nat) == Ok::<
            Seq<u8>,
            Seq<char>,
        >(bytes) ==> res is Ok && res->Ok_0@ == bytes,
        zstd_decoded(payload.compressed_data@, payload.uncompressed_size as nat) == Err::<
            Seq<u8>,
            Seq<char>,
        >(cause) ==> res is Err && res->Err_0->cause@ == cause,
{
}

} // verus!
