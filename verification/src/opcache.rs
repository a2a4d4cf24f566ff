//! Content-addressed cache keys and the on-disk encodings of cached
//! module artifacts and frozen project manifests.

use vstd::prelude::*;
use crate::digest::{blake3_digest, blake3_hash, hex_lower, is_hex_char, lemma_hex_lower_chars, to_hex};
use crate::text::{chars_are, chars_of, copy_chars, decimal, lemma_decimal_round_trip, lemma_skip_ws_back, parse_unsigned, parse_unsigned_spec, push_bytes, push_chars, push_decimal, push_str, same_chars, skip_ws_back, string_of, is_unicode_whitespace_exec, utf8_bytes, utf8_text};
use vstd::utf8::{decode_utf8, valid_utf8};

pub mod store;

pub use store::{CacheEntry, CacheStatus, PrunePlan, PruneResult, Store};

verus! {

/// Version of every cache encoding written here.
pub const CACHE_FORMAT_VERSION: u16 = 1;

/// A cache read that found data it cannot accept.
#[derive(Clone, Debug, PartialEq, Eq)]
pub enum CacheError {
    /// The data is corrupt or of an incompatible version.
    InvalidData(String),
}

/// The two bytes of a `u16`, least significant first.
pub open spec fn le16(v: u16) -> Seq<u8> {
    seq![(v % 256) as u8, (v / 256) as u8]
}

/// The UTF-8 bytes of text.
pub open spec fn utf8(s: Seq<char>) -> Seq<u8> {
    vstd::utf8::encode_utf8(s)
}

/// A 256-bit digest in hexadecimal: 64 hex digits.
pub open spec fn is_digest(s: Seq<char>) -> bool {
    s.len() == 64 && forall|i: int| 0 <= i < s.len() ==> is_hex_char(#[trigger] s[i])
}

/// A content-addressed cache key: a 256-bit digest in hexadecimal.
#[derive(Debug, PartialEq, Eq)]
pub struct CacheKey(String);

impl Clone for CacheKey {
    fn clone(&self) -> (copy: Self)
        ensures
            copy@ == self@,
    {
        proof {
            use_type_invariant(self);
        }
        CacheKey(self.0.clone())
    }
}

impl View for CacheKey {
    type V = Seq<char>;

    closed spec fn view(&self) -> Seq<char> {
        self.0@
    }
}

impl CacheKey {
    #[verifier::type_invariant]
    spec fn is_valid(&self) -> bool {
        is_digest(self.0@)
    }

    /// The hexadecimal digest.
    pub fn as_str(&self) -> (digest: &str)
        ensures
            digest@ == self@,
            is_digest(digest@),
    {
        proof {
            use_type_invariant(self);
        }
        self.0.as_str()
    }

    /// Restores a key from a hexadecimal digest.
    pub fn from_digest(value: String) -> (key: Result<CacheKey, CacheError>)
        ensures
            is_digest(value@) ==> (key matches Ok(k) && k@ == value@),
            !is_digest(value@) ==> (key matches Err(CacheError::InvalidData(m))
                && m@ == "cache key is not a 256-bit hexadecimal digest"@),
    {
        let chars = chars_of(value.as_str());
        if chars.len() != 64 {
            return Err(CacheError::InvalidData("cache key is not a 256-bit hexadecimal digest".to_owned()));
        }
        let mut i: usize = 0;
        while i < chars.len()
            invariant
                i <= chars@.len(),
                chars@ == value@,
                forall|k: int| 0 <= k < i ==> is_hex_char(#[trigger] chars@[k]),
            decreases chars.len() - i,
        {
            let c = chars[i];
            if !(('0' <= c && c <= '9') || ('a' <= c && c <= 'f') || ('A' <= c && c <= 'F')) {
                return Err(CacheError::InvalidData("cache key is not a 256-bit hexadecimal digest".to_owned()));
            }
            i = i + 1;
        }
        Ok(CacheKey(value))
    }

    /// The key of `source` compiled by `compiler_version` under
    /// `configuration`, for a bytecode schema and a target platform.
    pub fn calculate_with(
        source: &[u8],
        compiler_version: &str,
        configuration: &[u8],
        bytecode_schema: u16,
        arch: &str,
        os: &str,
    ) -> (key: CacheKey)
        ensures
            key@ == hex_lower(blake3_digest(key_material(source@, compiler_version@, configuration@, bytecode_schema, arch@, os@))),
    {
        let mut material: Vec<u8> = Vec::new();
        push_bytes(&mut material, "THP opcache".as_bytes());
        push_le16(&mut material, CACHE_FORMAT_VERSION);
        push_le16(&mut material, bytecode_schema);
        push_bytes(&mut material, compiler_version.as_bytes());
        push_bytes(&mut material, arch.as_bytes());
        push_bytes(&mut material, os.as_bytes());
        push_bytes(&mut material, configuration);
        push_bytes(&mut material, source);
        let digest = blake3_hash(material.as_slice());
        let hex = to_hex(digest.as_slice());
        proof {
            lemma_hex_lower_chars(digest@);
        }
        CacheKey(string_of(hex.as_slice()))
    }
}

/// The bytes a cache key digests, in order.
pub open spec fn key_material(
    source: Seq<u8>,
    compiler_version: Seq<char>,
    configuration: Seq<u8>,
    bytecode_schema: u16,
    arch: Seq<char>,
    os: Seq<char>,
) -> Seq<u8> {
    utf8("THP opcache"@) + le16(1) + le16(bytecode_schema) + utf8(compiler_version) + utf8(arch) + utf8(os)
        + configuration + source
}

/// Where each input stands in the digested material: the bytes of
/// `THP opcache`, the format version 1 and the bytecode schema (two
/// bytes each, low byte first), the compiler version, the architecture
/// and the operating system, then the configuration, then the source,
/// which ends it.
pub proof fn lemma_key_material_layout(
    source: Seq<u8>,
    compiler_version: Seq<char>,
    configuration: Seq<u8>,
    bytecode_schema: u16,
    arch: Seq<char>,
    os: Seq<char>,
)
    ensures
        ({
            let m = key_material(source, compiler_version, configuration, bytecode_schema, arch, os);
            let h = utf8("THP opcache"@).len() as int;
            let v = h + 4;
            let a = v + utf8(compiler_version).len();
            let o = a + utf8(arch).len();
            let c = o + utf8(os).len();
            let s = c + configuration.len();
            &&& m.len() == s + source.len()
            &&& m.subrange(0, h) == utf8("THP opcache"@)
            &&& m[h] == 1 && m[h + 1] == 0
            &&& m[h + 2] == (bytecode_schema % 256) as u8 && m[h + 3] == (bytecode_schema / 256) as u8
            &&& m.subrange(v, a) == utf8(compiler_version)
            &&& m.subrange(a, o) == utf8(arch)
            &&& m.subrange(o, c) == utf8(os)
            &&& m.subrange(c, s) == configuration
            &&& m.subrange(s, m.len() as int) == source
        }),
{
    let m = key_material(source, compiler_version, configuration, bytecode_schema, arch, os);
    let head = utf8("THP opcache"@);
    let h = head.len() as int;
    let v = h + 4;
    let a = v + utf8(compiler_version).len();
    let o = a + utf8(arch).len();
    let c = o + utf8(os).len();
    let s = c + configuration.len();
    assert(m.subrange(0, h) =~= head);
    assert(m.subrange(v, a) =~= utf8(compiler_version));
    assert(m.subrange(a, o) =~= utf8(arch));
    assert(m.subrange(o, c) =~= utf8(os));
    assert(m.subrange(c, s) =~= configuration);
    assert(m.subrange(s, m.len() as int) =~= source);
}

/// A key depends on the configuration and on the source: two calls that
/// differ only in one of them digest different material, so their keys
/// agree only where BLAKE3 gives two different inputs the same digest.
pub proof fn lemma_key_depends_on_configuration_and_source(
    source: Seq<u8>,
    other_source: Seq<u8>,
    compiler_version: Seq<char>,
    configuration: Seq<u8>,
    other_configuration: Seq<u8>,
    bytecode_schema: u16,
    arch: Seq<char>,
    os: Seq<char>,
)
    ensures
        ({
            let m = key_material(source, compiler_version, configuration, bytecode_schema, arch, os);
            let n = key_material(other_source, compiler_version, other_configuration, bytecode_schema, arch, os);
            &&& (source == other_source && configuration != other_configuration) ==> m != n
            &&& (source != other_source && configuration == other_configuration) ==> m != n
            &&& hex_lower(blake3_digest(m)) == hex_lower(blake3_digest(n)) ==> blake3_digest(m) == blake3_digest(n)
        }),
{
    let m = key_material(source, compiler_version, configuration, bytecode_schema, arch, os);
    let n = key_material(other_source, compiler_version, other_configuration, bytecode_schema, arch, os);
    lemma_key_material_layout(source, compiler_version, configuration, bytecode_schema, arch, os);
    lemma_key_material_layout(other_source, compiler_version, other_configuration, bytecode_schema, arch, os);
    crate::digest::lemma_hex_lower_injective(blake3_digest(m), blake3_digest(n));
}

fn push_le16(out: &mut Vec<u8>, v: u16)
    ensures
        final(out)@ == old(out)@ + le16(v),
{
    out.push((v % 256) as u8);
    out.push((v / 256) as u8);
    assert(final(out)@ =~= old(out)@ + le16(v));
}

/// Kinds of separately cached module artifacts.
#[derive(Clone, Copy, Debug, PartialEq, Eq)]
pub enum ArtifactKind {
    Interface,
    Object,
}

/// The file extension of an artifact kind.
pub open spec fn artifact_extension(kind: ArtifactKind) -> Seq<char> {
    match kind {
        ArtifactKind::Interface => "thpi"@,
        ArtifactKind::Object => "thpo"@,
    }
}

/// The tag byte of an artifact kind.
pub open spec fn artifact_tag(kind: ArtifactKind) -> u8 {
    match kind {
        ArtifactKind::Interface => 1,
        ArtifactKind::Object => 2,
    }
}

impl ArtifactKind {
    pub fn extension(self) -> (extension: &'static str)
        ensures
            extension@ == artifact_extension(self),
    {
        match self {
            ArtifactKind::Interface => "thpi",
            ArtifactKind::Object => "thpo",
        }
    }

    fn tag(self) -> (tag: u8)
        ensures
            tag == artifact_tag(self),
    {
        match self {
            ArtifactKind::Interface => 1,
            ArtifactKind::Object => 2,
        }
    }
}

/// The artifact magic, `THPA`.
pub open spec fn artifact_magic() -> Seq<u8> {
    seq![84u8, 72u8, 80u8, 65u8]
}

/// A stored artifact: magic, format version, kind tag, the payload's
/// digest and the payload.
pub open spec fn framed_artifact(kind: ArtifactKind, payload: Seq<u8>) -> Seq<u8> {
    artifact_magic() + le16(1) + seq![artifact_tag(kind)] + blake3_digest(payload) + payload
}

/// What reading stored artifact bytes of a kind yields.
pub open spec fn unframe_spec(kind: ArtifactKind, bytes: Seq<u8>) -> Option<Seq<u8>> {
    if bytes.len() < 39 || bytes.subrange(0, 4) != artifact_magic() || bytes.subrange(4, 6) != le16(1)
        || bytes[6] != artifact_tag(kind) || blake3_digest(bytes.subrange(39, bytes.len() as int))
        != bytes.subrange(7, 39) {
        None
    } else {
        Some(bytes.subrange(39, bytes.len() as int))
    }
}

/// Frames a module interface or object for storage.
pub fn frame_artifact(kind: ArtifactKind, payload: &[u8]) -> (bytes: Vec<u8>)
    ensures
        bytes@ == framed_artifact(kind, payload@),
        unframe_spec(kind, bytes@) == Some(payload@),
        forall|other: ArtifactKind| other != kind ==> unframe_spec(other, bytes@) is None,
{
    let mut bytes: Vec<u8> = Vec::new();
    bytes.push(84);
    bytes.push(72);
    bytes.push(80);
    bytes.push(65);
    push_le16(&mut bytes, CACHE_FORMAT_VERSION);
    bytes.push(kind.tag());
    let digest = blake3_hash(payload);
    push_bytes(&mut bytes, digest.as_slice());
    push_bytes(&mut bytes, payload);
    assert(bytes@ =~= framed_artifact(kind, payload@));
    proof {
        lemma_artifact_round_trip(kind, payload@);
        assert forall|other: ArtifactKind| other != kind implies unframe_spec(other, bytes@) is None by {
            lemma_artifact_kind_checked(kind, other, payload@);
        }
    }
    bytes
}

fn slices_equal(a: &[u8], a_start: usize, b: &[u8], b_start: usize, len: usize) -> (same: bool)
    requires
        a_start + len <= a@.len(),
        b_start + len <= b@.len(),
    ensures
        same == (a@.subrange(a_start as int, a_start + len) == b@.subrange(b_start as int, b_start + len)),
{
    let ghost sa = a@.subrange(a_start as int, a_start + len);
    let ghost sb = b@.subrange(b_start as int, b_start + len);
    let mut i: usize = 0;
    while i < len
        invariant
            i <= len,
            a_start + len <= a.len(),
            b_start + len <= b.len(),
            sa == a@.subrange(a_start as int, a_start + len),
            sb == b@.subrange(b_start as int, b_start + len),
            forall|k: int| 0 <= k < i ==> #[trigger] sa[k] == sb[k],
        decreases len - i,
    {
        assert(sa[i as int] == a@[a_start + i]);
        assert(sb[i as int] == b@[b_start + i]);
        if a[a_start + i] != b[b_start + i] {
            return false;
        }
        i = i + 1;
    }
    assert(sa =~= sb);
    true
}

/// Validates stored artifact bytes and returns the payload.
pub fn unframe_artifact(kind: ArtifactKind, bytes: &[u8]) -> (payload: Result<Vec<u8>, CacheError>)
    ensures
        match unframe_spec(kind, bytes@) {
            Some(p) => payload matches Ok(v) && v@ == p,
            None => payload matches Err(CacheError::InvalidData(m)) && m@ == "corrupt or incompatible module artifact"@,
        },
{
    let magic: [u8; 4] = [84, 72, 80, 65];
    assert(magic@ == artifact_magic());
    if bytes.len() < 39 || !slices_equal(bytes, 0, &magic, 0, 4) || bytes[4] != 1 || bytes[5] != 0
        || bytes[6] != kind.tag() {
        proof {
            if bytes@.len() >= 39 && bytes@.subrange(0, 4) == artifact_magic() && bytes@.subrange(4, 6) == le16(1) {
                assert(bytes@[4] == le16(1)[0]);
                assert(bytes@[5] == le16(1)[1]);
            }
            assert(magic@.subrange(0, 4) =~= magic@);
        }
        return Err(CacheError::InvalidData("corrupt or incompatible module artifact".to_owned()));
    }
    assert(magic@.subrange(0, 4) =~= magic@);
    assert(bytes@.subrange(4, 6) =~= le16(1));
    let payload = crate::text::copy_range(bytes, 39, bytes.len());
    let digest = blake3_hash(payload.as_slice());
    if !slices_equal(digest.as_slice(), 0, bytes, 7, 32) {
        assert(digest@.subrange(0, 32) =~= digest@);
        return Err(CacheError::InvalidData("corrupt or incompatible module artifact".to_owned()));
    }
    assert(digest@.subrange(0, 32) =~= digest@);
    Ok(payload)
}

/// Reading back a framed artifact of the same kind gives the payload.
proof fn lemma_artifact_round_trip(kind: ArtifactKind, payload: Seq<u8>)
    requires
        blake3_digest(payload).len() == 32,
    ensures
        unframe_spec(kind, framed_artifact(kind, payload)) == Some(payload),
{
    let b = framed_artifact(kind, payload);
    assert(b.subrange(0, 4) =~= artifact_magic());
    assert(b.subrange(4, 6) =~= le16(1));
    assert(b.subrange(39, b.len() as int) =~= payload);
    assert(b.subrange(7, 39) =~= blake3_digest(payload));
}

/// A framed artifact is refused when read as the other kind.
proof fn lemma_artifact_kind_checked(kind: ArtifactKind, other: ArtifactKind, payload: Seq<u8>)
    requires
        kind != other,
        blake3_digest(payload).len() == 32,
    ensures
        unframe_spec(other, framed_artifact(kind, payload)) is None,
{
    let b = framed_artifact(kind, payload);
    assert(b[6] == artifact_tag(kind));
}


/// A published project snapshot: the compiler, the project, its entry
/// module, the linked program and every module artifact it was built
/// from.
#[derive(Clone, Debug, PartialEq, Eq)]
pub struct FrozenManifest {
    pub manifest_version: u16,
    pub compiler_version: String,
    pub project_fingerprint: String,
    pub entry_id: String,
    pub program_key: CacheKey,
    pub interface_hashes: Vec<String>,
    pub object_hashes: Vec<String>,
}

/// The content of a manifest as plain values.
pub struct ManifestFields {
    pub version: u16,
    pub compiler: Seq<char>,
    pub project: Seq<char>,
    pub entry: Seq<char>,
    pub program: Seq<char>,
    pub interfaces: Seq<Seq<char>>,
    pub objects: Seq<Seq<char>>,
}

/// The fields of a manifest.
pub open spec fn manifest_fields(m: FrozenManifest) -> ManifestFields {
    ManifestFields {
        version: m.manifest_version,
        compiler: m.compiler_version@,
        project: m.project_fingerprint@,
        entry: m.entry_id@,
        program: m.program_key@,
        interfaces: m.interface_hashes@.map_values(|h: String| h@),
        objects: m.object_hashes@.map_values(|h: String| h@),
    }
}

/// `prefix=value` lines for each value, in order.
pub open spec fn records(prefix: Seq<char>, values: Seq<Seq<char>>) -> Seq<char>
    decreases values.len(),
{
    if values.len() == 0 {
        Seq::empty()
    } else {
        records(prefix, values.drop_last()) + prefix + values.last() + "\n"@
    }
}

/// The checksummed part of an encoded manifest.
pub open spec fn manifest_payload(f: ManifestFields) -> Seq<char> {
    "THP-MANIFEST\n"@ + "version="@ + decimal(f.version as nat) + "\n"@ + "compiler="@ + f.compiler + "\n"@
        + "project="@ + f.project + "\n"@ + "entry="@ + f.entry + "\n"@ + "program="@ + f.program + "\n"@
        + records("interface="@, f.interfaces) + records("object="@, f.objects)
}

/// The full manifest text: the payload and its BLAKE3 checksum line.
pub open spec fn manifest_text(f: ManifestFields) -> Seq<char> {
    manifest_payload(f) + "checksum="@ + hex_lower(blake3_digest(utf8(manifest_payload(f)))) + "\n"@
}

fn push_records(out: &mut Vec<char>, prefix: &str, values: &Vec<String>)
    ensures
        final(out)@ == old(out)@ + records(prefix@, values@.map_values(|h: String| h@)),
{
    let mut i: usize = 0;
    while i < values.len()
        invariant
            i <= values@.len(),
            out@ == old(out)@ + records(prefix@, values@.subrange(0, i as int).map_values(|h: String| h@)),
        decreases values.len() - i,
    {
        push_str(out, prefix);
        push_str(out, values[i].as_str());
        push_str(out, "\n");
        i = i + 1;
        assert(values@.subrange(0, i as int).map_values(|h: String| h@).drop_last() =~= values@.subrange(0, i - 1).map_values(|h: String| h@));
        assert(out@ =~= old(out)@ + records(prefix@, values@.subrange(0, i as int).map_values(|h: String| h@)));
    }
    assert(values@.subrange(0, values@.len() as int) =~= values@);
}

/// Encodes a manifest for publication.
pub fn encode_manifest(manifest: &FrozenManifest) -> (bytes: Vec<u8>)
    ensures
        bytes@ == utf8(manifest_text(manifest_fields(*manifest))),
{
    let mut text: Vec<char> = Vec::new();
    push_str(&mut text, "THP-MANIFEST\n");
    push_str(&mut text, "version=");
    push_decimal(&mut text, manifest.manifest_version as u128);
    push_str(&mut text, "\n");
    push_str(&mut text, "compiler=");
    push_str(&mut text, manifest.compiler_version.as_str());
    push_str(&mut text, "\n");
    push_str(&mut text, "project=");
    push_str(&mut text, manifest.project_fingerprint.as_str());
    push_str(&mut text, "\n");
    push_str(&mut text, "entry=");
    push_str(&mut text, manifest.entry_id.as_str());
    push_str(&mut text, "\n");
    push_str(&mut text, "program=");
    push_str(&mut text, manifest.program_key.as_str());
    push_str(&mut text, "\n");
    push_records(&mut text, "interface=", &manifest.interface_hashes);
    push_records(&mut text, "object=", &manifest.object_hashes);
    let ghost f = manifest_fields(*manifest);
    assert(text@ =~= manifest_payload(f));
    let payload = string_of(text.as_slice());
    let digest = blake3_hash(payload.as_str().as_bytes());
    let hex = to_hex(digest.as_slice());
    push_str(&mut text, "checksum=");
    push_chars(&mut text, hex.as_slice());
    push_str(&mut text, "\n");
    assert(text@ =~= manifest_text(f));
    let all = string_of(text.as_slice());
    vstd::slice::slice_to_vec(all.as_str().as_bytes())
}

/// Whether `pat` occurs in `s` at `i`.
pub open spec fn occurs_at(s: Seq<char>, pat: Seq<char>, i: int) -> bool {
    0 <= i && i + pat.len() <= s.len() && s.subrange(i, i + pat.len()) == pat
}

/// The last occurrence of `pat` in `s` starting at or before `i`.
pub open spec fn last_occurrence_from(s: Seq<char>, pat: Seq<char>, i: int) -> Option<int>
    decreases i + 1,
{
    if i < 0 {
        None
    } else if occurs_at(s, pat, i) {
        Some(i)
    } else {
        last_occurrence_from(s, pat, i - 1)
    }
}

/// The index of the first `\n` at or after `i`, or the length.
pub open spec fn newline_index(s: Seq<char>, i: int) -> int
    decreases s.len() - i,
{
    if i < 0 || i >= s.len() {
        s.len() as int
    } else if s[i] == '\n' {
        i
    } else {
        newline_index(s, i + 1)
    }
}

/// The line from `i` to the newline at `j`, without a `\r` before that
/// newline (a final line without newline keeps its `\r`), as `str::lines`.
pub open spec fn line_at(s: Seq<char>, i: int, j: int) -> Seq<char> {
    if j < s.len() && j > i && s[j - 1] == '\r' {
        s.subrange(i, j - 1)
    } else {
        s.subrange(i, j)
    }
}

/// Manifest records read so far.
pub struct ManifestDraft {
    pub version: Option<u16>,
    pub compiler: Option<Seq<char>>,
    pub project: Option<Seq<char>>,
    pub entry: Option<Seq<char>>,
    pub program: Option<Seq<char>>,
    pub interfaces: Seq<Seq<char>>,
    pub objects: Seq<Seq<char>>,
}

pub open spec fn empty_draft() -> ManifestDraft {
    ManifestDraft {
        version: None,
        compiler: None,
        project: None,
        entry: None,
        program: None,
        interfaces: Seq::empty(),
        objects: Seq::empty(),
    }
}

/// The index of the first `=` in a line, if any.
pub open spec fn first_equals(line: Seq<char>, i: int) -> Option<int>
    decreases line.len() - i,
{
    if i < 0 || i >= line.len() {
        None
    } else if line[i] == '=' {
        Some(i)
    } else {
        first_equals(line, i + 1)
    }
}

/// The effect of one `key=value` record on the draft.
pub open spec fn apply_record(line: Seq<char>, d: ManifestDraft) -> Result<ManifestDraft, Seq<char>> {
    match first_equals(line, 0) {
        None => Err("malformed manifest record"@),
        Some(k) => {
            let key = line.subrange(0, k);
            let value = line.subrange(k + 1, line.len() as int);
            if key == "version"@ {
                match parse_unsigned_spec(value, 65535) {
                    None => Err("invalid manifest version"@),
                    Some(v) => Ok(ManifestDraft { version: Some(v as u16), ..d }),
                }
            } else if key == "compiler"@ {
                Ok(ManifestDraft { compiler: Some(value), ..d })
            } else if key == "project"@ {
                Ok(ManifestDraft { project: Some(value), ..d })
            } else if key == "entry"@ {
                Ok(ManifestDraft { entry: Some(value), ..d })
            } else if key == "program"@ {
                if is_digest(value) {
                    Ok(ManifestDraft { program: Some(value), ..d })
                } else {
                    Err("cache key is not a 256-bit hexadecimal digest"@)
                }
            } else if key == "interface"@ {
                Ok(ManifestDraft { interfaces: d.interfaces.push(value), ..d })
            } else if key == "object"@ {
                Ok(ManifestDraft { objects: d.objects.push(value), ..d })
            } else {
                Err("unknown manifest record"@)
            }
        },
    }
}

pub proof fn lemma_newline_index(s: Seq<char>, i: int)
    requires
        0 <= i <= s.len(),
    ensures
        i <= newline_index(s, i) <= s.len(),
        newline_index(s, i) < s.len() ==> s[newline_index(s, i)] == '\n',
        forall|k: int| i <= k < newline_index(s, i) ==> s[k] != '\n',
    decreases s.len() - i,
{
    if i < s.len() && s[i] != '\n' {
        lemma_newline_index(s, i + 1);
    }
}

/// The records of the payload from `i` on, applied to `d`.
pub open spec fn decode_records(s: Seq<char>, i: int, d: ManifestDraft) -> Result<ManifestDraft, Seq<char>>
    decreases s.len() - i,
{
    if i < 0 || i >= s.len() {
        Ok(d)
    } else {
        let j = newline_index(s, i);
        proof {
            lemma_newline_index(s, i);
        }
        match apply_record(line_at(s, i, j), d) {
            Err(m) => Err(m),
            Ok(next) => decode_records(s, if j < s.len() { j + 1 } else { s.len() as int }, next),
        }
    }
}

/// A complete draft as manifest fields, or the first missing field.
pub open spec fn finish_draft(d: ManifestDraft) -> Result<ManifestFields, Seq<char>> {
    if d.version is None {
        Err("missing version"@)
    } else if d.compiler is None {
        Err("missing compiler"@)
    } else if d.project is None {
        Err("missing project"@)
    } else if d.entry is None {
        Err("missing entry"@)
    } else if d.program is None {
        Err("missing program"@)
    } else if d.version.unwrap() != 1 {
        Err("unsupported frozen manifest version"@)
    } else {
        Ok(ManifestFields {
            version: d.version.unwrap(),
            compiler: d.compiler.unwrap(),
            project: d.project.unwrap(),
            entry: d.entry.unwrap(),
            program: d.program.unwrap(),
            interfaces: d.interfaces,
            objects: d.objects,
        })
    }
}

/// What reading stored manifest bytes yields.
pub open spec fn decode_manifest_spec(bytes: Seq<u8>) -> Result<ManifestFields, Seq<char>> {
    if !valid_utf8(bytes) {
        Err("manifest is not UTF-8"@)
    } else {
        let text = decode_utf8(bytes);
        match last_occurrence_from(text, "checksum="@, text.len() - 9) {
            None => Err("manifest checksum is missing"@),
            Some(i) => {
                let payload = text.subrange(0, i);
                let line = text.subrange(i + 9, text.len() as int);
                let checksum = line.subrange(0, skip_ws_back(line, 0, line.len() as int));
                if hex_lower(blake3_digest(utf8(payload))) != checksum {
                    Err("manifest checksum mismatch"@)
                } else if payload.len() == 0 || line_at(payload, 0, newline_index(payload, 0)) != "THP-MANIFEST"@ {
                    Err("invalid manifest header"@)
                } else {
                    let j = newline_index(payload, 0);
                    match decode_records(payload, if j < payload.len() { j + 1 } else { payload.len() as int }, empty_draft()) {
                        Err(m) => Err(m),
                        Ok(d) => finish_draft(d),
                    }
                }
            },
        }
    }
}

fn occurs_at_exec(s: &[char], pat: &[char], i: usize) -> (found: bool)
    ensures
        found == occurs_at(s@, pat@, i as int),
{
    if i > s.len() || pat.len() > s.len() - i {
        return false;
    }
    let mut k: usize = 0;
    while k < pat.len()
        invariant
            i + pat.len() <= s.len(),
            k <= pat@.len(),
            forall|m: int| 0 <= m < k ==> s@[i + m] == pat@[m],
        decreases pat.len() - k,
    {
        if s[i + k] != pat[k] {
            assert(s@.subrange(i as int, i + pat@.len())[k as int] != pat@[k as int]);
            return false;
        }
        k = k + 1;
    }
    assert(s@.subrange(i as int, i + pat@.len()) =~= pat@);
    true
}

/// The last position, at or before `len - pat.len()`, where `pat` occurs.
fn last_occurrence(s: &[char], pat: &[char]) -> (found: Option<usize>)
    ensures
        match last_occurrence_from(s@, pat@, s@.len() - pat@.len()) {
            Some(i) => found matches Some(k) && k == i && 0 <= i && i + pat.len() <= s.len(),
            None => found is None,
        },
{
    if pat.len() > s.len() {
        assert(last_occurrence_from(s@, pat@, s@.len() - pat@.len()) is None);
        return None;
    }
    let mut i = s.len() - pat.len();
    loop
        invariant
            i <= s.len() - pat.len(),
            pat.len() <= s.len(),
            last_occurrence_from(s@, pat@, s@.len() - pat@.len()) == last_occurrence_from(s@, pat@, i as int),
        decreases i,
    {
        if occurs_at_exec(s, pat, i) {
            return Some(i);
        }
        if i == 0 {
            return None;
        }
        i = i - 1;
    }
}

fn newline_from(s: &[char], i: usize) -> (j: usize)
    requires
        i <= s@.len(),
    ensures
        j == newline_index(s@, i as int),
        i <= j <= s@.len(),
{
    proof {
        lemma_newline_index(s@, i as int);
    }
    let mut j = i;
    while j < s.len() && s[j] != '\n'
        invariant
            i <= j <= s@.len(),
            newline_index(s@, i as int) == newline_index(s@, j as int),
        decreases s.len() - j,
    {
        j = j + 1;
    }
    j
}

fn line_at_exec(s: &[char], i: usize, j: usize) -> (line: Vec<char>)
    requires
        i <= j <= s@.len(),
    ensures
        line@ == line_at(s@, i as int, j as int),
{
    if j < s.len() && j > i && s[j - 1] == '\r' {
        copy_chars(s, i, j - 1)
    } else {
        copy_chars(s, i, j)
    }
}

fn first_equals_exec(line: &[char]) -> (k: Option<usize>)
    ensures
        match first_equals(line@, 0) {
            Some(i) => k matches Some(p) && p == i && 0 <= i < line.len(),
            None => k is None,
        },
{
    let mut i: usize = 0;
    while i < line.len()
        invariant
            i <= line@.len(),
            first_equals(line@, 0) == first_equals(line@, i as int),
        decreases line.len() - i,
    {
        if line[i] == '=' {
            return Some(i);
        }
        i = i + 1;
    }
    None
}

/// A manifest being read.
struct Draft {
    version: Option<u16>,
    compiler: Option<String>,
    project: Option<String>,
    entry: Option<String>,
    program: Option<CacheKey>,
    interfaces: Vec<String>,
    objects: Vec<String>,
}

spec fn text_of(s: Option<String>) -> Option<Seq<char>> {
    match s {
        Some(t) => Some(t@),
        None => None,
    }
}

spec fn draft_view(d: Draft) -> ManifestDraft {
    ManifestDraft {
        version: d.version,
        compiler: text_of(d.compiler),
        project: text_of(d.project),
        entry: text_of(d.entry),
        program: match d.program {
            Some(k) => Some(k@),
            None => None,
        },
        interfaces: d.interfaces@.map_values(|h: String| h@),
        objects: d.objects@.map_values(|h: String| h@),
    }
}

fn apply_record_exec(line: &[char], d: &mut Draft) -> (applied: Result<(), String>)
    ensures
        match apply_record(line@, draft_view(*old(d))) {
            Ok(next) => applied is Ok && draft_view(*final(d)) == next,
            Err(m) => applied matches Err(e) && e@ == m,
        },
{
    let k = match first_equals_exec(line) {
        Some(k) => k,
        None => return Err("malformed manifest record".to_owned()),
    };
    let key = copy_chars(line, 0, k);
    let value = copy_chars(line, k + 1, line.len());
    let ghost before = draft_view(*d);
    if chars_are(key.as_slice(), "version") {
        match parse_unsigned(value.as_slice(), 65535) {
            None => return Err("invalid manifest version".to_owned()),
            Some(v) => {
                d.version = Some(v as u16);
            },
        }
    } else if chars_are(key.as_slice(), "compiler") {
        d.compiler = Some(string_of(value.as_slice()));
    } else if chars_are(key.as_slice(), "project") {
        d.project = Some(string_of(value.as_slice()));
    } else if chars_are(key.as_slice(), "entry") {
        d.entry = Some(string_of(value.as_slice()));
    } else if chars_are(key.as_slice(), "program") {
        match CacheKey::from_digest(string_of(value.as_slice())) {
            Ok(key) => {
                d.program = Some(key);
            },
            Err(_) => return Err("cache key is not a 256-bit hexadecimal digest".to_owned()),
        }
    } else if chars_are(key.as_slice(), "interface") {
        d.interfaces.push(string_of(value.as_slice()));
        assert(draft_view(*d).interfaces =~= before.interfaces.push(value@));
    } else if chars_are(key.as_slice(), "object") {
        d.objects.push(string_of(value.as_slice()));
        assert(draft_view(*d).objects =~= before.objects.push(value@));
    } else {
        return Err("unknown manifest record".to_owned());
    }
    Ok(())
}

/// Reads stored manifest bytes: the manifest, or why they are refused.
pub fn decode_manifest(bytes: &[u8]) -> (manifest: Result<FrozenManifest, CacheError>)
    ensures
        match decode_manifest_spec(bytes@) {
            Ok(f) => manifest matches Ok(m) && manifest_fields(m) == f,
            Err(message) => manifest matches Err(CacheError::InvalidData(e)) && e@ == message,
        },
{
    let text = match utf8_text(bytes) {
        Some(t) => chars_of(t),
        None => return Err(CacheError::InvalidData("manifest is not UTF-8".to_owned())),
    };
    let marker = chars_of("checksum=");
    proof {
        reveal_strlit("checksum=");
    }
    let i = match last_occurrence(text.as_slice(), marker.as_slice()) {
        Some(i) => i,
        None => return Err(CacheError::InvalidData("manifest checksum is missing".to_owned())),
    };
    let payload = copy_chars(text.as_slice(), 0, i);
    let line = copy_chars(text.as_slice(), i + 9, text.len());
    let mut end = line.len();
    while end > 0 && is_unicode_whitespace_exec(line[end - 1])
        invariant
            end <= line@.len(),
            skip_ws_back(line@, 0, line@.len() as int) == skip_ws_back(line@, 0, end as int),
        decreases end,
    {
        end = end - 1;
    }
    let checksum = copy_chars(line.as_slice(), 0, end);
    let digest = blake3_hash(utf8_bytes(payload.as_slice()).as_slice());
    let hex = to_hex(digest.as_slice());
    if !same_chars(hex.as_slice(), checksum.as_slice()) {
        return Err(CacheError::InvalidData("manifest checksum mismatch".to_owned()));
    }
    if payload.len() == 0 {
        return Err(CacheError::InvalidData("invalid manifest header".to_owned()));
    }
    let j = newline_from(payload.as_slice(), 0);
    let header = line_at_exec(payload.as_slice(), 0, j);
    if !chars_are(header.as_slice(), "THP-MANIFEST") {
        return Err(CacheError::InvalidData("invalid manifest header".to_owned()));
    }
    let mut draft = Draft {
        version: None,
        compiler: None,
        project: None,
        entry: None,
        program: None,
        interfaces: Vec::new(),
        objects: Vec::new(),
    };
    assert(draft_view(draft).interfaces =~= Seq::<Seq<char>>::empty());
    assert(draft_view(draft).objects =~= Seq::<Seq<char>>::empty());
    assert(draft_view(draft) == empty_draft());
    let start = if j < payload.len() { j + 1 } else { payload.len() };
    assert(decode_manifest_spec(bytes@) == match decode_records(payload@, start as int, empty_draft()) {
        Err(m) => Err(m),
        Ok(d) => finish_draft(d),
    });
    let mut pos = start;
    while pos < payload.len()
        invariant
            pos <= payload@.len(),
            decode_manifest_spec(bytes@) == match decode_records(payload@, start as int, empty_draft()) {
                Err(m) => Err(m),
                Ok(d) => finish_draft(d),
            },
            decode_records(payload@, start as int, empty_draft()) == decode_records(payload@, pos as int, draft_view(draft)),
        decreases payload.len() - pos,
    {
        let e = newline_from(payload.as_slice(), pos);
        let record = line_at_exec(payload.as_slice(), pos, e);
        match apply_record_exec(record.as_slice(), &mut draft) {
            Ok(()) => {},
            Err(m) => return Err(CacheError::InvalidData(m)),
        }
        pos = if e < payload.len() { e + 1 } else { payload.len() };
    }
    let version = match draft.version {
        Some(v) => v,
        None => return Err(CacheError::InvalidData("missing version".to_owned())),
    };
    let compiler_version = match draft.compiler {
        Some(v) => v,
        None => return Err(CacheError::InvalidData("missing compiler".to_owned())),
    };
    let project_fingerprint = match draft.project {
        Some(v) => v,
        None => return Err(CacheError::InvalidData("missing project".to_owned())),
    };
    let entry_id = match draft.entry {
        Some(v) => v,
        None => return Err(CacheError::InvalidData("missing entry".to_owned())),
    };
    let program_key = match draft.program {
        Some(v) => v,
        None => return Err(CacheError::InvalidData("missing program".to_owned())),
    };
    if version != CACHE_FORMAT_VERSION {
        return Err(CacheError::InvalidData("unsupported frozen manifest version".to_owned()));
    }
    Ok(
        FrozenManifest {
            manifest_version: version,
            compiler_version,
            project_fingerprint,
            entry_id,
            program_key,
            interface_hashes: draft.interfaces,
            object_hashes: draft.objects,
        },
    )
}

/// A manifest field that stays one line when encoded: no newline, and no
/// carriage return at its end (line reading would drop it).
pub open spec fn line_safe(v: Seq<char>) -> bool {
    (forall|i: int| 0 <= i < v.len() ==> #[trigger] v[i] != '\n') && !(v.len() > 0 && v.last() == '\r')
}

/// Lines, each followed by a newline.
pub open spec fn lines_text(ls: Seq<Seq<char>>) -> Seq<char>
    decreases ls.len(),
{
    if ls.len() == 0 {
        Seq::empty()
    } else {
        lines_text(ls.drop_last()) + ls.last() + "\n"@
    }
}

/// The records applied in order.
pub open spec fn apply_all(ls: Seq<Seq<char>>, d: ManifestDraft) -> Result<ManifestDraft, Seq<char>>
    decreases ls.len(),
{
    if ls.len() == 0 {
        Ok(d)
    } else {
        match apply_all(ls.drop_last(), d) {
            Err(m) => Err(m),
            Ok(n) => apply_record(ls.last(), n),
        }
    }
}

proof fn lemma_newline_at(s: Seq<char>, i: int, j: int)
    requires
        0 <= i <= j < s.len(),
        s[j] == '\n',
        forall|k: int| i <= k < j ==> s[k] != '\n',
    ensures
        newline_index(s, i) == j,
    decreases j - i,
{
    if i < j {
        lemma_newline_at(s, i + 1, j);
    }
}

/// Reading one safe line at `i`.
proof fn lemma_decode_line(s: Seq<char>, i: int, line: Seq<char>, d: ManifestDraft)
    requires
        0 <= i,
        i + line.len() < s.len(),
        s.subrange(i, i + line.len()) == line,
        s[i + line.len()] == '\n',
        line_safe(line),
    ensures
        decode_records(s, i, d) == match apply_record(line, d) {
            Err(m) => Err(m),
            Ok(n) => decode_records(s, i + line.len() + 1, n),
        },
{
    assert forall|k: int| i <= k < i + line.len() implies s[k] != '\n' by {
        assert(s[k] == s.subrange(i, i + line.len())[k - i]);
    }
    lemma_newline_at(s, i, i + line.len());
    let j = i + line.len();
    if j > i {
        assert(s[j - 1] == line.last()) by {
            assert(s[j - 1] == s.subrange(i, j)[line.len() - 1]);
        }
    }
    assert(line_at(s, i, j) == line);
}

proof fn lemma_lines_text_split(ls: Seq<Seq<char>>, k: int)
    requires
        0 <= k <= ls.len(),
    ensures
        lines_text(ls) == lines_text(ls.subrange(0, k)) + lines_text(ls.subrange(k, ls.len() as int)),
    decreases ls.len() - k,
{
    if k < ls.len() {
        lemma_lines_text_split(ls.drop_last(), k);
        assert(ls.drop_last().subrange(0, k) =~= ls.subrange(0, k));
        assert(ls.subrange(k, ls.len() as int).drop_last() =~= ls.drop_last().subrange(k, ls.len() - 1));
        assert(ls.subrange(k, ls.len() as int).last() == ls.last());
        assert(lines_text(ls) =~= lines_text(ls.subrange(0, k)) + lines_text(ls.subrange(k, ls.len() as int)));
    } else {
        assert(ls.subrange(0, k) =~= ls);
        assert(ls.subrange(k, ls.len() as int) =~= Seq::<Seq<char>>::empty());
        assert(lines_text(ls) =~= lines_text(ls.subrange(0, k)) + lines_text(ls.subrange(k, ls.len() as int)));
    }
}

proof fn lemma_lines_text_first(ls: Seq<Seq<char>>)
    requires
        ls.len() > 0,
    ensures
        lines_text(ls) == ls[0] + "\n"@ + lines_text(ls.subrange(1, ls.len() as int)),
    decreases ls.len(),
{
    if ls.len() == 1 {
        assert(ls.drop_last() =~= Seq::<Seq<char>>::empty());
        assert(ls.subrange(1, 1) =~= Seq::<Seq<char>>::empty());
        assert(lines_text(ls) =~= ls[0] + "\n"@ + lines_text(ls.subrange(1, ls.len() as int)));
    } else {
        lemma_lines_text_first(ls.drop_last());
        assert(ls.drop_last().subrange(1, ls.len() - 1) =~= ls.subrange(1, ls.len() as int).drop_last());
        assert(lines_text(ls) =~= ls[0] + "\n"@ + lines_text(ls.subrange(1, ls.len() as int)));
    }
}

/// Reading safe lines that run to the end applies them in order.
proof fn lemma_decode_lines(s: Seq<char>, pre: Seq<char>, ls: Seq<Seq<char>>, k: int, d: ManifestDraft)
    requires
        s == pre + lines_text(ls),
        0 <= k <= ls.len(),
        forall|m: int| 0 <= m < ls.len() ==> #[trigger] line_safe(ls[m]),
    ensures
        decode_records(s, pre.len() as int, d) == match apply_all(ls.subrange(0, k), d) {
            Err(m) => Err(m),
            Ok(n) => decode_records(s, (pre.len() + lines_text(ls.subrange(0, k)).len()) as int, n),
        },
    decreases k,
{
    reveal_strlit("\n");
    if k == 0 {
        assert(ls.subrange(0, 0) =~= Seq::<Seq<char>>::empty());
    } else {
        lemma_decode_lines(s, pre, ls, k - 1, d);
        let before = ls.subrange(0, k - 1);
        let upto = ls.subrange(0, k);
        assert(upto.drop_last() =~= before);
        assert(upto.last() == ls[k - 1]);
        if let Ok(n) = apply_all(before, d) {
            let pos: int = (pre.len() + lines_text(before).len()) as int;
            lemma_lines_text_split(ls, k - 1);
            let rest = ls.subrange(k - 1, ls.len() as int);
            lemma_lines_text_first(rest);
            assert(rest[0] == ls[k - 1]);
            let line = ls[k - 1];
            assert(s =~= pre + lines_text(before) + (line + "\n"@ + lines_text(rest.subrange(1, rest.len() as int))));
            assert(s.subrange(pos, pos + line.len()) =~= line);
            assert(s[pos + line.len()] == '\n');
            lemma_decode_line(s, pos, line, n);
        }
    }
}

proof fn lemma_lines_text_concat(a: Seq<Seq<char>>, b: Seq<Seq<char>>)
    ensures
        lines_text(a + b) == lines_text(a) + lines_text(b),
    decreases b.len(),
{
    if b.len() == 0 {
        assert(a + b =~= a);
        assert(lines_text(a) + lines_text(b) =~= lines_text(a));
    } else {
        lemma_lines_text_concat(a, b.drop_last());
        assert((a + b).drop_last() =~= a + b.drop_last());
        assert(lines_text(a + b) =~= lines_text(a) + lines_text(b));
    }
}

proof fn lemma_apply_all_concat(a: Seq<Seq<char>>, b: Seq<Seq<char>>, d: ManifestDraft)
    ensures
        apply_all(a + b, d) == match apply_all(a, d) {
            Err(m) => Err(m),
            Ok(n) => apply_all(b, n),
        },
    decreases b.len(),
{
    if b.len() == 0 {
        assert(a + b =~= a);
    } else {
        lemma_apply_all_concat(a, b.drop_last(), d);
        assert((a + b).drop_last() =~= a + b.drop_last());
    }
}

/// The record lines of `values` under `prefix`.
pub open spec fn record_lines(prefix: Seq<char>, values: Seq<Seq<char>>) -> Seq<Seq<char>> {
    values.map_values(|v: Seq<char>| prefix + v)
}

proof fn lemma_records_lines(prefix: Seq<char>, values: Seq<Seq<char>>)
    ensures
        records(prefix, values) == lines_text(record_lines(prefix, values)),
    decreases values.len(),
{
    if values.len() > 0 {
        lemma_records_lines(prefix, values.drop_last());
        assert(record_lines(prefix, values).drop_last() =~= record_lines(prefix, values.drop_last()));
        assert(records(prefix, values) =~= lines_text(record_lines(prefix, values)));
    } else {
        assert(record_lines(prefix, values) =~= Seq::<Seq<char>>::empty());
    }
}

proof fn lemma_first_equals_at(line: Seq<char>, i: int, k: int)
    requires
        0 <= i <= k < line.len(),
        line[k] == '=',
        forall|m: int| i <= m < k ==> line[m] != '=',
    ensures
        first_equals(line, i) == Some(k),
    decreases k - i,
{
    if i < k {
        lemma_first_equals_at(line, i + 1, k);
    }
}

/// How a record line `key=value` splits, for a key without `=`.
proof fn lemma_record_split(key: Seq<char>, value: Seq<char>)
    requires
        forall|m: int| 0 <= m < key.len() ==> key[m] != '=',
    ensures
        first_equals(key + "="@ + value, 0) == Some(key.len() as int),
        (key + "="@ + value).subrange(0, key.len() as int) == key,
        (key + "="@ + value).subrange(key.len() as int + 1, (key + "="@ + value).len() as int) == value,
{
    reveal_strlit("=");
    let line = key + "="@ + value;
    assert forall|m: int| 0 <= m < key.len() implies line[m] != '=' by {
        assert(line[m] == key[m]);
    }
    lemma_first_equals_at(line, 0, key.len() as int);
    assert(line.subrange(0, key.len() as int) =~= key);
    assert(line.subrange(key.len() as int + 1, line.len() as int) =~= value);
}

/// Applying `interface=` lines adds their values in order.
proof fn lemma_apply_interfaces(values: Seq<Seq<char>>, d: ManifestDraft)
    ensures
        apply_all(record_lines("interface="@, values), d) == Ok::<ManifestDraft, Seq<char>>(
            ManifestDraft { interfaces: d.interfaces + values, ..d },
        ),
    decreases values.len(),
{
    reveal_strlit("interface=");
    reveal_strlit("=");
    reveal_strlit("interface");
    reveal_strlit("version");
    reveal_strlit("compiler");
    reveal_strlit("project");
    reveal_strlit("entry");
    reveal_strlit("program");
    if values.len() == 0 {
        assert(record_lines("interface="@, values) =~= Seq::<Seq<char>>::empty());
        assert(d.interfaces + values =~= d.interfaces);
    } else {
        lemma_apply_interfaces(values.drop_last(), d);
        assert(record_lines("interface="@, values).drop_last() =~= record_lines("interface="@, values.drop_last()));
        let v = values.last();
        assert("interface="@ =~= "interface"@ + "="@);
        assert("interface="@ + v =~= "interface"@ + "="@ + v);
        lemma_record_split("interface"@, v);
        let line = "interface="@ + v;
        assert(record_lines("interface="@, values).last() == line);
        let d1 = ManifestDraft { interfaces: d.interfaces + values.drop_last(), ..d };
        assert(first_equals(line, 0) == Some(9int));
        assert(line.subrange(0, 9) == "interface"@);
        assert(line.subrange(10, line.len() as int) == v);
        assert(apply_record(line, d1) == Ok::<ManifestDraft, Seq<char>>(ManifestDraft { interfaces: d1.interfaces.push(v), ..d1 }));
        assert(d.interfaces + values.drop_last() + seq![v] =~= d.interfaces + values);
        assert(d1.interfaces.push(v) =~= d.interfaces + values);
    }
}

/// Applying `object=` lines adds their values in order.
proof fn lemma_apply_objects(values: Seq<Seq<char>>, d: ManifestDraft)
    ensures
        apply_all(record_lines("object="@, values), d) == Ok::<ManifestDraft, Seq<char>>(
            ManifestDraft { objects: d.objects + values, ..d },
        ),
    decreases values.len(),
{
    reveal_strlit("object=");
    reveal_strlit("=");
    reveal_strlit("object");
    reveal_strlit("interface");
    reveal_strlit("version");
    reveal_strlit("compiler");
    reveal_strlit("project");
    reveal_strlit("entry");
    reveal_strlit("program");
    if values.len() == 0 {
        assert(record_lines("object="@, values) =~= Seq::<Seq<char>>::empty());
        assert(d.objects + values =~= d.objects);
    } else {
        lemma_apply_objects(values.drop_last(), d);
        assert(record_lines("object="@, values).drop_last() =~= record_lines("object="@, values.drop_last()));
        let v = values.last();
        assert("object="@ =~= "object"@ + "="@);
        assert("object="@ + v =~= "object"@ + "="@ + v);
        lemma_record_split("object"@, v);
        let line = "object="@ + v;
        assert(record_lines("object="@, values).last() == line);
        let d1 = ManifestDraft { objects: d.objects + values.drop_last(), ..d };
        assert(first_equals(line, 0) == Some(6int));
        assert(line.subrange(0, 6) == "object"@);
        assert(line.subrange(7, line.len() as int) == v);
        assert(apply_record(line, d1) == Ok::<ManifestDraft, Seq<char>>(ManifestDraft { objects: d1.objects.push(v), ..d1 }));
        assert(d.objects + values.drop_last() + seq![v] =~= d.objects + values);
        assert(d1.objects.push(v) =~= d.objects + values);
    }
}

/// The first five record lines of a manifest.
pub open spec fn fixed_lines(f: ManifestFields) -> Seq<Seq<char>> {
    seq![
        "version="@ + decimal(f.version as nat),
        "compiler="@ + f.compiler,
        "project="@ + f.project,
        "entry="@ + f.entry,
        "program="@ + f.program,
    ]
}

/// Every record line of a manifest, in order.
pub open spec fn manifest_lines(f: ManifestFields) -> Seq<Seq<char>> {
    fixed_lines(f) + record_lines("interface="@, f.interfaces) + record_lines("object="@, f.objects)
}

#[verifier::rlimit(40)]
proof fn lemma_payload_lines(f: ManifestFields)
    ensures
        manifest_payload(f) == "THP-MANIFEST\n"@ + lines_text(manifest_lines(f)),
{
    let fl = fixed_lines(f);
    let s1 = seq![fl[0]];
    let s2 = seq![fl[0], fl[1]];
    let s3 = seq![fl[0], fl[1], fl[2]];
    let s4 = seq![fl[0], fl[1], fl[2], fl[3]];
    assert(s1.drop_last() =~= Seq::<Seq<char>>::empty());
    assert(s2.drop_last() =~= s1);
    assert(s3.drop_last() =~= s2);
    assert(s4.drop_last() =~= s3);
    assert(fl.drop_last() =~= s4);
    assert(lines_text(Seq::<Seq<char>>::empty()) == Seq::<char>::empty());
    assert(lines_text(s1) =~= fl[0] + "\n"@);
    assert(lines_text(s2) =~= fl[0] + "\n"@ + fl[1] + "\n"@);
    assert(lines_text(s3) =~= fl[0] + "\n"@ + fl[1] + "\n"@ + fl[2] + "\n"@);
    assert(lines_text(s4) =~= fl[0] + "\n"@ + fl[1] + "\n"@ + fl[2] + "\n"@ + fl[3] + "\n"@);
    assert(lines_text(fl) =~= "version="@ + decimal(f.version as nat) + "\n"@ + "compiler="@ + f.compiler + "\n"@
        + "project="@ + f.project + "\n"@ + "entry="@ + f.entry + "\n"@ + "program="@ + f.program + "\n"@);
    lemma_records_lines("interface="@, f.interfaces);
    lemma_records_lines("object="@, f.objects);
    lemma_lines_text_concat(fl, record_lines("interface="@, f.interfaces));
    lemma_lines_text_concat(fl + record_lines("interface="@, f.interfaces), record_lines("object="@, f.objects));
    assert(manifest_payload(f) =~= "THP-MANIFEST\n"@ + lines_text(manifest_lines(f)));
}

proof fn lemma_prefixed_line_safe(prefix: Seq<char>, v: Seq<char>)
    requires
        prefix.len() > 0,
        forall|m: int| 0 <= m < prefix.len() ==> prefix[m] != '\n',
        prefix.last() != '\r',
        line_safe(v),
    ensures
        line_safe(prefix + v),
{
    let l = prefix + v;
    assert forall|m: int| 0 <= m < l.len() implies #[trigger] l[m] != '\n' by {
        if m >= prefix.len() {
            assert(l[m] == v[m - prefix.len()]);
        }
    }
    if v.len() > 0 {
        assert(l.last() == v.last());
    }
}

proof fn lemma_manifest_lines_safe(f: ManifestFields)
    requires
        line_safe(f.compiler),
        line_safe(f.project),
        line_safe(f.entry),
        is_digest(f.program),
        forall|i: int| 0 <= i < f.interfaces.len() ==> #[trigger] line_safe(f.interfaces[i]),
        forall|i: int| 0 <= i < f.objects.len() ==> #[trigger] line_safe(f.objects[i]),
    ensures
        forall|m: int| 0 <= m < manifest_lines(f).len() ==> #[trigger] line_safe(manifest_lines(f)[m]),
{
    reveal_strlit("version=");
    reveal_strlit("compiler=");
    reveal_strlit("project=");
    reveal_strlit("entry=");
    reveal_strlit("program=");
    reveal_strlit("interface=");
    reveal_strlit("object=");
    lemma_decimal_round_trip(f.version as nat);
    let d = decimal(f.version as nat);
    assert(line_safe(d)) by {
        assert forall|i: int| 0 <= i < d.len() implies #[trigger] d[i] != '\n' by {
            assert(crate::text::is_digit(d[i]));
        }
        assert(crate::text::is_digit(d[d.len() - 1]));
    }
    assert(line_safe(f.program)) by {
        assert forall|i: int| 0 <= i < f.program.len() implies #[trigger] f.program[i] != '\n' by {
            assert(is_hex_char(f.program[i]));
        }
        assert(is_hex_char(f.program[f.program.len() - 1]));
    }
    lemma_prefixed_line_safe("version="@, d);
    lemma_prefixed_line_safe("compiler="@, f.compiler);
    lemma_prefixed_line_safe("project="@, f.project);
    lemma_prefixed_line_safe("entry="@, f.entry);
    lemma_prefixed_line_safe("program="@, f.program);
    let lines = manifest_lines(f);
    let fl = fixed_lines(f);
    let il = record_lines("interface="@, f.interfaces);
    assert forall|m: int| 0 <= m < lines.len() implies #[trigger] line_safe(lines[m]) by {
        if m < 5 {
            assert(lines[m] == fl[m]);
        } else if m < 5 + f.interfaces.len() {
            assert(lines[m] == il[m - 5]);
            lemma_prefixed_line_safe("interface="@, f.interfaces[m - 5]);
        } else {
            let k = m - 5 - f.interfaces.len();
            assert(lines[m] == record_lines("object="@, f.objects)[k]);
            lemma_prefixed_line_safe("object="@, f.objects[k]);
        }
    }
}

proof fn lemma_apply_fixed(f: ManifestFields)
    requires
        f.version == 1,
        is_digest(f.program),
    ensures
        apply_all(fixed_lines(f), empty_draft()) == Ok::<ManifestDraft, Seq<char>>(
            ManifestDraft {
                version: Some(1u16),
                compiler: Some(f.compiler),
                project: Some(f.project),
                entry: Some(f.entry),
                program: Some(f.program),
                interfaces: Seq::empty(),
                objects: Seq::empty(),
            },
        ),
{
    reveal_strlit("=");
    reveal_strlit("version=");
    reveal_strlit("compiler=");
    reveal_strlit("project=");
    reveal_strlit("entry=");
    reveal_strlit("program=");
    reveal_strlit("version");
    reveal_strlit("compiler");
    reveal_strlit("project");
    reveal_strlit("entry");
    reveal_strlit("program");
    let fl = fixed_lines(f);
    lemma_decimal_round_trip(1);
    let one = decimal(1);
    assert(parse_unsigned_spec(one, 65535) == Some(1nat));
    assert("version="@ + one =~= "version"@ + "="@ + one);
    assert("compiler="@ + f.compiler =~= "compiler"@ + "="@ + f.compiler);
    assert("project="@ + f.project =~= "project"@ + "="@ + f.project);
    assert("entry="@ + f.entry =~= "entry"@ + "="@ + f.entry);
    assert("program="@ + f.program =~= "program"@ + "="@ + f.program);
    lemma_record_split("version"@, one);
    lemma_record_split("compiler"@, f.compiler);
    lemma_record_split("project"@, f.project);
    lemma_record_split("entry"@, f.entry);
    lemma_record_split("program"@, f.program);
    let d0 = empty_draft();
    let d1 = ManifestDraft { version: Some(1u16), ..d0 };
    let d2 = ManifestDraft { compiler: Some(f.compiler), ..d1 };
    let d3 = ManifestDraft { project: Some(f.project), ..d2 };
    let d4 = ManifestDraft { entry: Some(f.entry), ..d3 };
    let d5 = ManifestDraft { program: Some(f.program), ..d4 };
    assert("program"@[0] != "version"@[0]);
    assert("program"@[3] != "project"@[3]);
    assert("project"@[0] != "version"@[0]);
    assert("program"@ != "version"@);
    assert("program"@ != "project"@);
    assert("project"@ != "version"@);
    assert(apply_record(fl[0], d0) == Ok::<ManifestDraft, Seq<char>>(d1));
    assert(apply_record(fl[1], d1) == Ok::<ManifestDraft, Seq<char>>(d2));
    assert(apply_record(fl[2], d2) == Ok::<ManifestDraft, Seq<char>>(d3));
    assert(apply_record(fl[3], d3) == Ok::<ManifestDraft, Seq<char>>(d4));
    assert(apply_record(fl[4], d4) == Ok::<ManifestDraft, Seq<char>>(d5));
    assert(fl.drop_last() =~= seq![fl[0], fl[1], fl[2], fl[3]]);
    assert(fl.drop_last().drop_last() =~= seq![fl[0], fl[1], fl[2]]);
    assert(fl.drop_last().drop_last().drop_last() =~= seq![fl[0], fl[1]]);
    assert(fl.drop_last().drop_last().drop_last().drop_last() =~= seq![fl[0]]);
    assert(seq![fl[0]].drop_last() =~= Seq::<Seq<char>>::empty());
    assert(apply_all(Seq::<Seq<char>>::empty(), d0) == Ok::<ManifestDraft, Seq<char>>(d0));
    assert(apply_all(seq![fl[0]], d0) == Ok::<ManifestDraft, Seq<char>>(d1));
    assert(apply_all(seq![fl[0], fl[1]], d0) == Ok::<ManifestDraft, Seq<char>>(d2));
    assert(apply_all(seq![fl[0], fl[1], fl[2]], d0) == Ok::<ManifestDraft, Seq<char>>(d3));
    assert(apply_all(seq![fl[0], fl[1], fl[2], fl[3]], d0) == Ok::<ManifestDraft, Seq<char>>(d4));
}

proof fn lemma_last_occurrence_tail(text: Seq<char>, pat: Seq<char>, p: int, i: int)
    requires
        0 <= p <= i,
        occurs_at(text, pat, p),
        forall|q: int| p < q <= i ==> !#[trigger] occurs_at(text, pat, q),
    ensures
        last_occurrence_from(text, pat, i) == Some(p),
    decreases i - p,
{
    if i > p {
        lemma_last_occurrence_tail(text, pat, p, i - 1);
    }
}

/// Reading back an encoded manifest gives the manifest that was encoded,
/// for a current-version manifest whose text fields each stay one line.
#[verifier::rlimit(60)]
pub proof fn lemma_manifest_round_trip(f: ManifestFields)
    requires
        f.version == 1,
        is_digest(f.program),
        line_safe(f.compiler),
        line_safe(f.project),
        line_safe(f.entry),
        forall|i: int| 0 <= i < f.interfaces.len() ==> #[trigger] line_safe(f.interfaces[i]),
        forall|i: int| 0 <= i < f.objects.len() ==> #[trigger] line_safe(f.objects[i]),
    ensures
        decode_manifest_spec(utf8(manifest_text(f))) == Ok::<ManifestFields, Seq<char>>(f),
{
    reveal_strlit("checksum=");
    reveal_strlit("\n");
    reveal_strlit("THP-MANIFEST\n");
    reveal_strlit("THP-MANIFEST");
    let payload = manifest_payload(f);
    let digest = blake3_digest(utf8(payload));
    let h = hex_lower(digest);
    let text = manifest_text(f);
    vstd::utf8::encode_utf8_valid_utf8(text);
    vstd::utf8::encode_utf8_decode_utf8(text);
    let pat = "checksum="@;
    let p = payload.len() as int;
    assert(text =~= payload + pat + h + "\n"@);
    assert(text.subrange(p, p + 9) =~= pat);
    assert(occurs_at(text, pat, p));
    lemma_hex_lower_chars(digest);
    assert forall|q: int| p < q <= text.len() - 9 implies !#[trigger] occurs_at(text, pat, q) by {
        let m = q + 8;
        if m < p + 9 + h.len() {
            assert(text[m] == h[m - p - 9]);
            assert(is_hex_char(h[m - p - 9]));
        } else {
            assert(text[m] == '\n');
        }
        if occurs_at(text, pat, q) {
            assert(text.subrange(q, q + 9)[8] == pat[8]);
        }
    }
    lemma_last_occurrence_tail(text, pat, p, text.len() - 9);
    let line = text.subrange(p + 9, text.len() as int);
    assert(line =~= h + "\n"@);
    assert(crate::text::is_unicode_whitespace(line[line.len() - 1]));
    if h.len() > 0 {
        assert(line[line.len() - 2] == h[h.len() - 1]);
        assert(is_hex_char(h[h.len() - 1]));
        assert(!crate::text::is_unicode_whitespace(line[line.len() - 2]));
    }
    assert(skip_ws_back(line, 0, h.len() as int) == h.len());
    assert(skip_ws_back(line, 0, line.len() as int) == skip_ws_back(line, 0, h.len() as int));
    assert(line.subrange(0, h.len() as int) =~= h);
    assert(text.subrange(0, p) =~= payload);
    lemma_payload_lines(f);
    let lines = manifest_lines(f);
    let head = "THP-MANIFEST\n"@;
    assert(payload.len() > 0);
    assert forall|k: int| 0 <= k < 12 implies payload[k] != '\n' by {
        assert(payload[k] == head[k]);
    }
    assert(payload[12] == '\n') by {
        assert(payload[12] == head[12]);
    }
    lemma_newline_at(payload, 0, 12);
    assert(payload[11] == 'T') by {
        assert(payload[11] == head[11]);
    }
    assert(line_at(payload, 0, 12) =~= "THP-MANIFEST"@);
    lemma_manifest_lines_safe(f);
    lemma_decode_lines(payload, head, lines, lines.len() as int, empty_draft());
    assert(lines.subrange(0, lines.len() as int) =~= lines);
    let fl = fixed_lines(f);
    let il = record_lines("interface="@, f.interfaces);
    let ol = record_lines("object="@, f.objects);
    lemma_apply_all_concat(fl + il, ol, empty_draft());
    lemma_apply_all_concat(fl, il, empty_draft());
    lemma_apply_fixed(f);
    let d5 = ManifestDraft {
        version: Some(1u16),
        compiler: Some(f.compiler),
        project: Some(f.project),
        entry: Some(f.entry),
        program: Some(f.program),
        interfaces: Seq::empty(),
        objects: Seq::empty(),
    };
    lemma_apply_interfaces(f.interfaces, d5);
    let d6 = ManifestDraft { interfaces: d5.interfaces + f.interfaces, ..d5 };
    lemma_apply_objects(f.objects, d6);
    let d7 = ManifestDraft { objects: d6.objects + f.objects, ..d6 };
    assert(d5.interfaces + f.interfaces =~= f.interfaces);
    assert(d6.objects + f.objects =~= f.objects);
    assert(decode_records(payload, (head.len() + lines_text(lines).len()) as int, d7) == Ok::<ManifestDraft, Seq<char>>(d7));
    assert(finish_draft(d7) == Ok::<ManifestFields, Seq<char>>(f));
}

} // verus!
