//! The library of imported voices: what is accepted, stored, found again and removed.
//!
//! Files are read and written outside this library.  What was seen of them comes in as
//! plain values, and what is to be done with them goes out as such.

use vstd::prelude::*;
use vstd::string::*;

use crate::binary32;
use crate::fidelity;
use crate::identity;
use crate::interpolation;
use crate::reading;
use crate::resample;
use crate::text;
use crate::wav;
use crate::writing;

verus! {

/// Largest accepted source file.
pub const MAX_SOURCE_BYTES: u64 = 25 * 1024 * 1024;

/// Newest registry version that is understood.
pub const REGISTRY_VERSION: u32 = 1;

/// Name of the registry file.
pub const REGISTRY_FILE: &'static str = "registry.json";

/// A voice in the registry.
#[derive(Clone, Debug, PartialEq, Eq)]
pub struct ImportedVoice {
    pub key: String,
    pub display_name: String,
    pub content_hash: String,
    pub file_name: String,
}

/// The registry as it is stored.
pub struct ImportedVoiceRegistry {
    pub version: u32,
    pub voices: Vec<ImportedVoice>,
}

/// What was seen of the registry file.
pub enum StoredRegistry {
    /// There is none.
    Missing,
    /// There is one, and reading it failed.
    Unreadable(String),
    /// There is one, and it is no registry.
    Invalid(String),
    /// What it holds.
    Parsed(ImportedVoiceRegistry),
}

/// What was seen of a file in the voice storage.
pub enum StoredFile {
    /// There is no regular file: nothing at all, a directory, a link.
    NotRegular,
    /// There is one, and reading it failed.
    Unreadable(String),
    /// Its content.
    Content(Vec<u8>),
}

/// A voice that is ready to be stored, and the content of its file.
pub struct PreparedVoice {
    pub canonical: Vec<u8>,
    pub voice: ImportedVoice,
}

/// What to do about the file of a voice that is being imported.
#[derive(Clone, Copy, Debug, PartialEq, Eq)]
pub enum AudioStep {
    /// Write it.
    Write,
    /// Leave the one that is there.
    Keep,
}

/// How an import ends.
pub enum ImportEnd {
    Done(ImportedVoice),
    /// It failed, and the file that it wrote is to be removed if `remove_audio` holds.
    Failed { error: String, remove_audio: bool },
}

/// A deletion under way.
pub struct Deletion {
    /// The registry without the voice.
    pub remaining: Vec<ImportedVoice>,
    /// The registry as it was.
    pub previous: Vec<ImportedVoice>,
    /// The file to remove.
    pub file_name: String,
}

/// How removing a file went.
pub enum Removal {
    Removed,
    Missing,
    Failed(String),
}

/// What follows the removal of the file of a deleted voice.
pub enum DeletionStep {
    Done,
    /// Put the registry back as it was, and report the error.
    Restore { voices: Vec<ImportedVoice>, error: String },
}

/// The key of the voice with a content identity.
pub open spec fn key_of(hash: Seq<char>) -> Seq<char> {
    "pocket:imported:"@ + hash
}

/// The file of the voice with a content identity.
pub open spec fn file_name_of(hash: Seq<char>) -> Seq<char> {
    hash + ".wav"@
}

/// Whether the file that an entry names is the one of its content identity.
pub open spec fn names_own_file(voice: ImportedVoice) -> bool {
    &&& identity::well_formed_hash(voice.content_hash@)
    &&& voice.file_name@ == file_name_of(voice.content_hash@)
}

/// Whether an entry is what importing its content would have made of it.
pub open spec fn consistent(voice: ImportedVoice) -> bool {
    &&& names_own_file(voice)
    &&& voice.key@ == key_of(voice.content_hash@)
}

impl StoredFile {
    /// Whether the identity of the content can be computed.
    pub open spec fn countable(self) -> bool {
        self matches StoredFile::Content(content) ==> identity::countable(content@)
    }
}

/// Whether the file of a voice is there and holds what the voice claims, or why not.
pub open spec fn resolved(voice: ImportedVoice, file: StoredFile) -> Result<(), Seq<char>> {
    if !names_own_file(voice) {
        Err("Imported voice registry contains an invalid file identity"@)
    } else {
        match file {
            StoredFile::NotRegular => Err(
                "Imported voice "@ + voice.display_name@ + " is missing"@,
            ),
            StoredFile::Unreadable(e) => Err("could not verify imported voice: "@ + e@),
            StoredFile::Content(content) => if identity::identity_of(content@)
                != voice.content_hash@ {
                Err(
                    "Imported voice "@ + voice.display_name@
                        + " does not match its content identity"@,
                )
            } else {
                Ok(())
            },
        }
    }
}

/// The voices of `voices` whose files, in the same order, resolve.
pub open spec fn usable(voices: Seq<ImportedVoice>, files: Seq<StoredFile>) -> Seq<ImportedVoice>
    decreases voices.len(),
{
    if voices.len() == 0 {
        Seq::empty()
    } else {
        let before = usable(voices.drop_last(), files.drop_last());
        if resolved(voices.last(), files.last()) is Ok {
            before.push(voices.last())
        } else {
            before
        }
    }
}

/// The entries of a registry that are looked up in the storage.
pub open spec fn candidates(voices: Seq<ImportedVoice>) -> Seq<ImportedVoice> {
    voices.filter(|voice: ImportedVoice| consistent(voice))
}

/// Why a registry is refused.
pub open spec fn newer_registry_message(version: nat) -> Seq<char> {
    "imported voice registry version "@ + text::decimal_of(version)
        + " is newer than this Buzz build supports"@
}

/// The canonical form of a recording: decoded, converted to the rate of stored voices and
/// encoded in 16 bits; or why the recording is refused.
pub open spec fn canonical_of(source: Seq<u8>) -> Result<Seq<u8>, Seq<char>> {
    match wav::decoded(source) {
        Err(e) => Err(e),
        Ok((sample_rate, samples)) => Ok(
            wav::encoded_wav(
                resample::resampled(samples, sample_rate),
                wav::CANONICAL_SAMPLE_RATE,
            ),
        ),
    }
}

/// What is done about the file of the voice with a content identity, from what stands in
/// its place; or why the import is refused.
pub open spec fn placed(hash: Seq<char>, existing: Option<StoredFile>) -> Result<
    AudioStep,
    Seq<char>,
> {
    match existing {
        None => Ok(AudioStep::Write),
        Some(StoredFile::NotRegular) => Err(
            "Imported voice storage contains an unsafe file entry"@,
        ),
        Some(StoredFile::Unreadable(e)) => Err("could not verify imported voice audio: "@ + e@),
        Some(StoredFile::Content(content)) => if identity::identity_of(content@) != hash {
            Err("Imported voice storage contains mismatched audio data"@)
        } else {
            Ok(AudioStep::Keep)
        },
    }
}

/// How an import ends once saving the registry was tried: where that failed, a file that
/// the import wrote is removed again.
pub open spec fn ended(
    imported: ImportedVoice,
    step: AudioStep,
    saved: Result<(), String>,
) -> ImportEnd {
    match saved {
        Ok(_) => ImportEnd::Done(imported),
        Err(error) => ImportEnd::Failed { error, remove_audio: step == AudioStep::Write },
    }
}

/// Where the first voice with a content identity stands from `i` on.
pub open spec fn first_with_hash(voices: Seq<ImportedVoice>, hash: Seq<char>, i: int) -> Option<
    int,
>
    decreases voices.len() - i,
{
    if i >= voices.len() {
        None
    } else if voices[i].content_hash@ == hash {
        Some(i)
    } else {
        first_with_hash(voices, hash, i + 1)
    }
}

/// Where the first voice with a key stands from `i` on.
pub open spec fn first_with_key(voices: Seq<ImportedVoice>, key: Seq<char>, i: int) -> Option<int>
    decreases voices.len() - i,
{
    if i >= voices.len() {
        None
    } else if voices[i].key@ == key {
        Some(i)
    } else {
        first_with_key(voices, key, i + 1)
    }
}

/// The registry with a voice in it, and its entry: an entry with the same content
/// identity is kept in place of the new one.
pub open spec fn registered(voices: Seq<ImportedVoice>, imported: ImportedVoice) -> (
    Seq<ImportedVoice>,
    ImportedVoice,
) {
    match first_with_hash(voices, imported.content_hash@, 0) {
        Some(i) => (voices, voices[i]),
        None => (voices.push(imported), imported),
    }
}

impl ImportedVoice {
    /// A copy.
    pub fn duplicate(&self) -> (r: ImportedVoice)
        ensures
            r == *self,
    {
        ImportedVoice {
            key: self.key.clone(),
            display_name: self.display_name.clone(),
            content_hash: self.content_hash.clone(),
            file_name: self.file_name.clone(),
        }
    }
}

/// A copy of a registry.
pub fn duplicate_voices(voices: &[ImportedVoice]) -> (r: Vec<ImportedVoice>)
    ensures
        r@ == voices@,
{
    let mut r: Vec<ImportedVoice> = Vec::new();
    let mut i: usize = 0;
    while i < voices.len()
        invariant
            i <= voices@.len(),
            r@ =~= voices@.take(i as int),
        decreases voices@.len() - i,
    {
        r.push(voices[i].duplicate());
        i = i + 1;
    }
    assert(voices@.take(i as int) =~= voices@);
    r
}

/// Whether the file that an entry names is the one of its content identity.
pub fn has_own_file_name(voice: &ImportedVoice) -> (r: bool)
    ensures
        r == names_own_file(*voice),
{
    identity::valid_hash(voice.content_hash.as_str()) && voice.file_name == text::joined(
        voice.content_hash.as_str(),
        ".wav",
    )
}

/// Whether an entry is what importing its content would have made of it.
pub fn is_consistent(voice: &ImportedVoice) -> (r: bool)
    ensures
        r == consistent(*voice),
{
    has_own_file_name(voice) && voice.key == text::joined(
        "pocket:imported:",
        voice.content_hash.as_str(),
    )
}

/// Decides from what was seen of the file of a voice whether the voice can be used.
pub fn resolve_file(voice: &ImportedVoice, file: &StoredFile) -> (r: Result<(), String>)
    requires
        file.countable(),
    ensures
        match resolved(*voice, *file) {
            Ok(_) => r is Ok,
            Err(e) => r matches Err(m) && m@ == e,
        },
{
    if !has_own_file_name(voice) {
        return Err("Imported voice registry contains an invalid file identity".to_owned());
    }
    match file {
        StoredFile::NotRegular => Err(
            text::joined3("Imported voice ", voice.display_name.as_str(), " is missing"),
        ),
        StoredFile::Unreadable(e) => Err(
            text::joined("could not verify imported voice: ", e.as_str()),
        ),
        StoredFile::Content(content) => {
            if identity::content_identity(content.as_slice()) != voice.content_hash {
                Err(
                    text::joined3(
                        "Imported voice ",
                        voice.display_name.as_str(),
                        " does not match its content identity",
                    ),
                )
            } else {
                Ok(())
            }
        },
    }
}

/// Whether the file of a voice is looked up when a registry is loaded: the registry is one
/// that is understood, and the voice a consistent entry of it.
pub open spec fn looked_up(stored: StoredRegistry, voice: ImportedVoice) -> bool {
    &&& stored matches StoredRegistry::Parsed(registry)
    &&& registry.version <= REGISTRY_VERSION
    &&& registry.voices@.contains(voice)
    &&& consistent(voice)
}

/// The usable voices of a stored registry: those that are consistent and whose files, as
/// `read` finds them, hold what they claim.  A registry that is missing has none; one
/// that cannot be read, is no registry or is too new is refused.  Only the files of
/// consistent entries are read.
pub fn load_registry<R>(stored: StoredRegistry, read: R) -> (r: Result<Vec<ImportedVoice>, String>)
    where R: Fn(&ImportedVoice) -> StoredFile

    requires
        forall|voice: ImportedVoice|
            looked_up(stored, voice) ==> #[trigger] call_requires(read, (&voice,)),
        forall|voice: ImportedVoice, file: StoredFile|
            looked_up(stored, voice) && #[trigger] call_ensures(read, (&voice,), file)
                ==> file.countable(),
    ensures
        match stored {
            StoredRegistry::Missing => r matches Ok(voices) && voices@ == Seq::<
                ImportedVoice,
            >::empty(),
            StoredRegistry::Unreadable(e) => r matches Err(m) && m@
                == "could not read imported voices: "@ + e@,
            StoredRegistry::Invalid(e) => r matches Err(m) && m@
                == "imported voice registry is invalid: "@ + e@,
            StoredRegistry::Parsed(registry) => if registry.version > 1 {
                r matches Err(m) && m@ == newer_registry_message(registry.version as nat)
            } else {
                let listed = candidates(registry.voices@);
                &&& r matches Ok(voices)
                &&& exists|files: Seq<StoredFile>|
                    {
                        &&& files.len() == listed.len()
                        &&& forall|i: int|
                            0 <= i < listed.len() ==> call_ensures(
                                read,
                                (&listed[i],),
                                #[trigger] files[i],
                            )
                        &&& voices@ == #[trigger] usable(listed, files)
                    }
            },
        },
{
    let registry: ImportedVoiceRegistry = match stored {
        StoredRegistry::Missing => {
            return Ok(Vec::new());
        },
        StoredRegistry::Unreadable(e) => {
            return Err(text::joined("could not read imported voices: ", e.as_str()));
        },
        StoredRegistry::Invalid(e) => {
            return Err(text::joined("imported voice registry is invalid: ", e.as_str()));
        },
        StoredRegistry::Parsed(registry) => registry,
    };
    if registry.version > REGISTRY_VERSION {
        let version: String = text::decimal(registry.version as u64);
        return Err(
            text::joined3(
                "imported voice registry version ",
                version.as_str(),
                " is newer than this Buzz build supports",
            ),
        );
    }
    let ghost all = registry.voices@;
    let ghost mut files: Seq<StoredFile> = Seq::empty();
    let mut voices: Vec<ImportedVoice> = Vec::new();
    let mut i: usize = 0;
    proof {
        reveal(Seq::filter);
    }
    assert(all.take(0) =~= Seq::empty());
    while i < registry.voices.len()
        invariant
            i <= all.len(),
            all == registry.voices@,
            stored == StoredRegistry::Parsed(registry),
            registry.version <= REGISTRY_VERSION,
            forall|voice: ImportedVoice|
                looked_up(stored, voice) ==> #[trigger] call_requires(read, (&voice,)),
            forall|voice: ImportedVoice, file: StoredFile|
                looked_up(stored, voice) && #[trigger] call_ensures(read, (&voice,), file)
                    ==> file.countable(),
            files.len() == candidates(all.take(i as int)).len(),
            forall|j: int|
                0 <= j < files.len() ==> call_ensures(
                    read,
                    (&candidates(all.take(i as int))[j],),
                    #[trigger] files[j],
                ),
            voices@ == usable(candidates(all.take(i as int)), files),
        decreases all.len() - i,
    {
        let voice: &ImportedVoice = &registry.voices[i];
        let ghost listed = candidates(all.take(i as int));
        proof {
            reveal(Seq::filter);
            assert(all.take(i + 1).drop_last() =~= all.take(i as int));
        }
        if is_consistent(voice) {
            assert(looked_up(stored, *voice));
            let file: StoredFile = read(voice);
            assert(candidates(all.take(i + 1)) == listed.push(*voice));
            assert(listed.push(*voice).drop_last() =~= listed);
            assert(files.push(file).drop_last() =~= files);
            if resolve_file(voice, &file).is_ok() {
                voices.push(voice.duplicate());
            }
            proof {
                files = files.push(file);
            }
        }
        i = i + 1;
    }
    assert(all.take(i as int) =~= all);
    Ok(voices)
}

/// The registry to be stored for the given voices.
pub fn registry_to_save(voices: &[ImportedVoice]) -> (r: ImportedVoiceRegistry)
    ensures
        r.version == 1,
        r.voices@ == voices@,
{
    ImportedVoiceRegistry { version: REGISTRY_VERSION, voices: duplicate_voices(voices) }
}

/// Admits a source file by its size, as far as it could be found out.
pub fn admit_source(size: Result<u64, String>) -> (r: Result<(), String>)
    ensures
        match size {
            Err(e) => r matches Err(m) && m@ == "could not inspect selected WAV: "@ + e@,
            Ok(n) => if n > 26_214_400 {
                r matches Err(m) && m@ == "Voice WAV must be 25 MB or smaller"@
            } else {
                r is Ok
            },
        },
{
    match size {
        Err(e) => Err(text::joined("could not inspect selected WAV: ", e.as_str())),
        Ok(n) => if n > MAX_SOURCE_BYTES {
            Err("Voice WAV must be 25 MB or smaller".to_owned())
        } else {
            Ok(())
        },
    }
}

/// Converts an acceptable recording to the rate of stored voices and encodes it.
fn canonicalize(recording: &wav::DecodedWav) -> (bytes: Vec<u8>)
    requires
        wav::MIN_SAMPLE_RATE <= recording.sample_rate <= wav::MAX_SAMPLE_RATE,
        wav::MIN_DURATION_SECONDS * recording.sample_rate <= recording.samples@.len(),
        recording.samples@.len() <= wav::MAX_DURATION_SECONDS * recording.sample_rate,
    ensures
        bytes@ == wav::encoded_wav(
            resample::resampled(recording.samples@, recording.sample_rate),
            wav::CANONICAL_SAMPLE_RATE,
        ),
        identity::countable(bytes@),
{
    let ghost len = recording.samples@.len();
    proof {
        resample::law_resampled_duration_is_kept(recording.samples@, recording.sample_rate);
        if recording.sample_rate == wav::CANONICAL_SAMPLE_RATE {
            assert((len * 32_000 + 16_000) / 32_000 == len);
        }
    }
    let samples: Vec<u32> = resample::resample_linear(
        recording.samples.as_slice(),
        recording.sample_rate,
    );
    proof {
        wav::lemma_encoded_len(samples@, wav::CANONICAL_SAMPLE_RATE);
    }
    wav::encode_pcm16_wav(samples.as_slice(), wav::CANONICAL_SAMPLE_RATE)
}

/// The canonical form of a recording.
pub fn canonical_wav(source: &[u8]) -> (r: Result<Vec<u8>, String>)
    ensures
        match canonical_of(source@) {
            Ok(canonical) => {
                &&& r matches Ok(bytes)
                &&& bytes@ == canonical
                &&& identity::countable(bytes@)
            },
            Err(e) => r matches Err(m) && m@ == e,
        },
{
    match wav::decode_wav(source) {
        Ok(recording) => {
            proof {
                assert(source@.len() == source.len());
                wav::law_decoded_recording_is_acceptable(source@);
            }
            Ok(canonicalize(&recording))
        },
        Err(e) => Err(e),
    }
}

/// Prepares a voice from the content of a source file, as far as it could be read, and
/// from the stem of its name, where that is text.
pub fn prepare_import(source: Result<Vec<u8>, String>, stem: Option<&str>) -> (r: Result<
    PreparedVoice,
    String,
>)
    ensures
        match source {
            Err(e) => r matches Err(m) && m@ == "could not read selected WAV: "@ + e@,
            Ok(bytes) => match canonical_of(bytes@) {
                Err(e) => r matches Err(m) && m@ == e,
                Ok(canonical) => {
                    &&& r matches Ok(prepared)
                    &&& prepared.canonical@ == canonical
                    &&& prepared.voice.content_hash@ == identity::identity_of(canonical)
                    &&& prepared.voice.display_name@ == text::display_name_of(
                        match stem {
                            Some(s) => Some(s@),
                            None => None,
                        },
                    )
                    &&& consistent(prepared.voice)
                },
            },
        },
{
    let bytes: Vec<u8> = match source {
        Ok(bytes) => bytes,
        Err(e) => {
            return Err(text::joined("could not read selected WAV: ", e.as_str()));
        },
    };
    let canonical: Vec<u8> = match canonical_wav(bytes.as_slice()) {
        Ok(canonical) => canonical,
        Err(e) => {
            return Err(e);
        },
    };
    let content_hash: String = identity::content_identity(canonical.as_slice());
    let key: String = text::joined("pocket:imported:", content_hash.as_str());
    let file_name: String = text::joined(content_hash.as_str(), ".wav");
    let display_name: String = text::display_name(stem);
    Ok(
        PreparedVoice {
            canonical,
            voice: ImportedVoice { key, display_name, content_hash, file_name },
        },
    )
}

/// Decides what is done about the file of a voice that is being imported, from what
/// stands in its place.
pub fn place_audio(voice: &ImportedVoice, existing: Option<StoredFile>) -> (r: Result<
    AudioStep,
    String,
>)
    requires
        existing matches Some(file) ==> file.countable(),
    ensures
        match placed(voice.content_hash@, existing) {
            Ok(step) => r == Ok::<AudioStep, String>(step),
            Err(e) => r matches Err(m) && m@ == e,
        },
{
    match existing {
        None => Ok(AudioStep::Write),
        Some(StoredFile::NotRegular) => Err(
            "Imported voice storage contains an unsafe file entry".to_owned(),
        ),
        Some(StoredFile::Unreadable(e)) => Err(
            text::joined("could not verify imported voice audio: ", e.as_str()),
        ),
        Some(StoredFile::Content(content)) => {
            if identity::content_identity(content.as_slice()) != voice.content_hash {
                Err("Imported voice storage contains mismatched audio data".to_owned())
            } else {
                Ok(AudioStep::Keep)
            }
        },
    }
}

/// Enters a voice into the registry, unless there is one with the same content: the
/// registry then, and the entry.
pub fn register(voices: Vec<ImportedVoice>, imported: ImportedVoice) -> (r: (
    Vec<ImportedVoice>,
    ImportedVoice,
))
    ensures
        (r.0@, r.1) == registered(voices@, imported),
{
    let mut i: usize = 0;
    while i < voices.len()
        invariant
            i <= voices@.len(),
            first_with_hash(voices@, imported.content_hash@, 0) == first_with_hash(
                voices@,
                imported.content_hash@,
                i as int,
            ),
        decreases voices@.len() - i,
    {
        if voices[i].content_hash == imported.content_hash {
            let existing: ImportedVoice = voices[i].duplicate();
            return (voices, existing);
        }
        i = i + 1;
    }
    let mut voices: Vec<ImportedVoice> = voices;
    voices.push(imported.duplicate());
    (voices, imported)
}

/// Ends an import once saving the registry was tried: where that failed, a file that the
/// import wrote is removed again.
pub fn end_import(imported: ImportedVoice, step: AudioStep, saved: Result<(), String>) -> (r:
    ImportEnd)
    ensures
        r == ended(imported, step, saved),
{
    match saved {
        Ok(_) => ImportEnd::Done(imported),
        Err(error) => ImportEnd::Failed {
            error,
            remove_audio: match step {
                AudioStep::Write => true,
                AudioStep::Keep => false,
            },
        },
    }
}

/// Begins the deletion of the first voice with a key.
pub fn delete(voices: Vec<ImportedVoice>, key: &str) -> (r: Result<Deletion, String>)
    ensures
        match first_with_key(voices@, key@, 0) {
            None => r matches Err(m) && m@ == "Unknown imported voice: "@ + key@,
            Some(i) => {
                &&& r matches Ok(deletion)
                &&& deletion.previous@ == voices@
                &&& deletion.remaining@ == voices@.remove(i)
                &&& deletion.file_name == voices@[i].file_name
            },
        },
{
    let wanted: String = key.to_owned();
    let mut i: usize = 0;
    while i < voices.len() && voices[i].key != wanted
        invariant
            i <= voices@.len(),
            wanted@ == key@,
            first_with_key(voices@, key@, 0) == first_with_key(voices@, key@, i as int),
        decreases voices@.len() - i,
    {
        i = i + 1;
    }
    if i == voices.len() {
        return Err(text::joined("Unknown imported voice: ", key));
    }
    let previous: Vec<ImportedVoice> = duplicate_voices(voices.as_slice());
    let mut remaining: Vec<ImportedVoice> = voices;
    let removed: ImportedVoice = remaining.remove(i);
    Ok(Deletion { remaining, previous, file_name: removed.file_name })
}

/// Decides what follows the removal of the file of a deleted voice: a file that is gone
/// already counts as removed, and where removing it failed the registry is put back.
pub fn after_removal(deletion: Deletion, removal: Removal) -> (r: DeletionStep)
    ensures
        match removal {
            Removal::Removed | Removal::Missing => r == DeletionStep::Done,
            Removal::Failed(e) => r == (DeletionStep::Restore {
                voices: deletion.previous,
                error: e,
            }),
        },
{
    match removal {
        Removal::Removed => DeletionStep::Done,
        Removal::Missing => DeletionStep::Done,
        Removal::Failed(error) => DeletionStep::Restore { voices: deletion.previous, error },
    }
}

/// What is reported of a deletion whose file could not be removed.
pub fn deletion_failure(error: &str, restored: Result<(), String>) -> (m: String)
    ensures
        match restored {
            Ok(_) => m@ == "Imported voice audio could not be deleted: "@ + error@,
            Err(rollback) => m@ == "Imported voice audio could not be deleted ("@ + error@
                + "), and its registry entry could not be restored ("@ + rollback@ + ")"@,
        },
{
    match restored {
        Ok(_) => text::joined("Imported voice audio could not be deleted: ", error),
        Err(rollback) => {
            let first: String = text::joined3(
                "Imported voice audio could not be deleted (",
                error,
                "), and its registry entry could not be restored (",
            );
            text::joined3(first.as_str(), rollback.as_str(), ")")
        },
    }
}

/// Whether an entry is found again where `storage` gives what stands at each file name.
pub open spec fn in_use(voice: ImportedVoice, storage: spec_fn(Seq<char>) -> StoredFile) -> bool {
    consistent(voice) && resolved(voice, storage(voice.file_name@)) is Ok
}

/// What loading a stored registry gives where `storage` gives what stands at each file
/// name.
pub open spec fn loaded(
    voices: Seq<ImportedVoice>,
    storage: spec_fn(Seq<char>) -> StoredFile,
) -> Seq<ImportedVoice> {
    let listed = candidates(voices);
    usable(listed, Seq::new(listed.len(), |i: int| storage(listed[i].file_name@)))
}

/// Whether no two voices have the same content identity.
pub open spec fn distinct(voices: Seq<ImportedVoice>) -> bool {
    forall|i: int, j: int|
        0 <= i < j < voices.len() ==> (#[trigger] voices[i]).content_hash@ != (
        #[trigger] voices[j]).content_hash@
}

/// What is found under a content identity, and what is not.
proof fn lemma_first_with_hash(voices: Seq<ImportedVoice>, hash: Seq<char>, i: int)
    requires
        0 <= i,
    ensures
        match first_with_hash(voices, hash, i) {
            Some(k) => {
                &&& i <= k < voices.len()
                &&& voices[k].content_hash@ == hash
                &&& forall|j: int| i <= j < k ==> (#[trigger] voices[j]).content_hash@ != hash
            },
            None => forall|j: int|
                i <= j < voices.len() ==> (#[trigger] voices[j]).content_hash@ != hash,
        },
    decreases voices.len() - i,
{
    if i < voices.len() && voices[i].content_hash@ != hash {
        lemma_first_with_hash(voices, hash, i + 1);
    }
}

/// What is found under a key, and what is not.
proof fn lemma_first_with_key(voices: Seq<ImportedVoice>, key: Seq<char>, i: int)
    requires
        0 <= i,
    ensures
        match first_with_key(voices, key, i) {
            Some(k) => {
                &&& i <= k < voices.len()
                &&& voices[k].key@ == key
                &&& forall|j: int| i <= j < k ==> (#[trigger] voices[j]).key@ != key
            },
            None => forall|j: int| i <= j < voices.len() ==> (#[trigger] voices[j]).key@ != key,
        },
    decreases voices.len() - i,
{
    if i < voices.len() && voices[i].key@ != key {
        lemma_first_with_key(voices, key, i + 1);
    }
}

/// The key of a consistent entry tells its content identity.
proof fn lemma_key_tells_hash(a: Seq<char>, b: Seq<char>)
    requires
        key_of(a) == key_of(b),
    ensures
        a == b,
{
    let n = "pocket:imported:"@.len() as int;
    assert(key_of(a).len() == n + a.len());
    assert(key_of(b).len() == n + b.len());
    assert(key_of(a).skip(n) =~= a);
    assert(key_of(b).skip(n) =~= b);
}

/// Loading keeps the entries that are found again, in order.
proof fn lemma_loaded(voices: Seq<ImportedVoice>, storage: spec_fn(Seq<char>) -> StoredFile)
    ensures
        loaded(voices, storage) == voices.filter(|voice: ImportedVoice| in_use(voice, storage)),
    decreases voices.len(),
{
    reveal(Seq::filter);
    let listed = candidates(voices);
    let files = Seq::new(listed.len(), |i: int| storage(listed[i].file_name@));
    if voices.len() > 0 {
        let init = voices.drop_last();
        lemma_loaded(init, storage);
        let before = candidates(init);
        if consistent(voices.last()) {
            assert(listed == before.push(voices.last()));
            assert(listed.drop_last() =~= before);
            assert(files.drop_last() =~= Seq::new(
                before.len(),
                |i: int| storage(before[i].file_name@),
            ));
        }
    }
}

/// A registry whose entries are all consistent and backed by their files is loaded again
/// as it was saved.
pub proof fn law_registry_survives_relaunch(
    voices: Seq<ImportedVoice>,
    storage: spec_fn(Seq<char>) -> StoredFile,
)
    requires
        forall|i: int| 0 <= i < voices.len() ==> in_use(#[trigger] voices[i], storage),
    ensures
        loaded(voices, storage) == voices,
    decreases voices.len(),
{
    lemma_loaded(voices, storage);
    reveal(Seq::filter);
    if voices.len() > 0 {
        let init = voices.drop_last();
        assert forall|i: int| 0 <= i < init.len() implies in_use(#[trigger] init[i], storage) by {
            assert(init[i] == voices[i]);
        }
        law_registry_survives_relaunch(init, storage);
        lemma_loaded(init, storage);
        assert(in_use(voices[voices.len() - 1], storage));
        assert(init.push(voices.last()) =~= voices);
    }
}

/// The file name of a consistent entry tells its content identity.
proof fn lemma_file_name_tells_hash(a: Seq<char>, b: Seq<char>)
    requires
        file_name_of(a) == file_name_of(b),
    ensures
        a == b,
{
    assert(file_name_of(a).len() == a.len() + ".wav"@.len());
    assert(file_name_of(b).len() == b.len() + ".wav"@.len());
    assert(a.len() == b.len());
    assert(file_name_of(a).take(a.len() as int) =~= a);
    assert(file_name_of(b).take(b.len() as int) =~= b);
}

/// An imported voice survives a relaunch: once its content is stored under its file name,
/// loading the registry gives it under its key, and all voices that were there before.
pub proof fn law_imported_voice_survives_relaunch(
    voices: Seq<ImportedVoice>,
    imported: ImportedVoice,
    content: Vec<u8>,
    before: spec_fn(Seq<char>) -> StoredFile,
    after: spec_fn(Seq<char>) -> StoredFile,
)
    requires
        forall|i: int| 0 <= i < voices.len() ==> in_use(#[trigger] voices[i], before),
        consistent(imported),
        identity::identity_of(content@) == imported.content_hash@,
        after(imported.file_name@) == StoredFile::Content(content),
        forall|name: Seq<char>|
            name != imported.file_name@ ==> #[trigger] after(name) == before(name),
    ensures
        ({
            let (now, entry) = registered(voices, imported);
            &&& loaded(now, after) == now
            &&& now.take(voices.len() as int) == voices
            &&& entry.content_hash@ == imported.content_hash@
            &&& entry.key@ == imported.key@
            &&& first_with_key(now, imported.key@, 0) is Some
        }),
{
    let (now, entry) = registered(voices, imported);
    lemma_first_with_hash(voices, imported.content_hash@, 0);
    assert forall|i: int| 0 <= i < now.len() implies in_use(#[trigger] now[i], after) by {
        if i < voices.len() {
            assert(now[i] == voices[i]);
            assert(in_use(voices[i], before));
            if voices[i].file_name@ == imported.file_name@ {
                lemma_file_name_tells_hash(voices[i].content_hash@, imported.content_hash@);
            }
        }
    }
    law_registry_survives_relaunch(now, after);
    assert(now.take(voices.len() as int) =~= voices);
    lemma_first_with_key(now, imported.key@, 0);
    match first_with_hash(voices, imported.content_hash@, 0) {
        Some(i) => {
            assert(in_use(voices[i], before));
            assert(now[i].key@ == imported.key@);
        },
        None => {
            assert(now[voices.len() as int].key@ == imported.key@);
        },
    }
}

/// A deleted voice is not found again: once its file is gone, loading the registry
/// without the entry gives no voice with its key.
pub proof fn law_deleted_voice_is_gone(
    voices: Seq<ImportedVoice>,
    key: Seq<char>,
    i: int,
    storage: spec_fn(Seq<char>) -> StoredFile,
)
    requires
        first_with_key(voices, key, 0) == Some(i),
        consistent(voices[i]),
        storage(voices[i].file_name@) is NotRegular,
    ensures
        first_with_key(loaded(voices.remove(i), storage), key, 0) is None,
{
    let rest = loaded(voices.remove(i), storage);
    lemma_loaded(voices.remove(i), storage);
    lemma_first_with_key(voices, key, 0);
    lemma_first_with_key(rest, key, 0);
    let kept = |voice: ImportedVoice| in_use(voice, storage);
    broadcast use vstd::seq_lib::group_filter_ensures;

    if let Some(k) = first_with_key(rest, key, 0) {
        assert(rest == voices.remove(i).filter(kept));
        assert(rest.contains(rest[k]));
        assert(kept(rest[k]));
        lemma_key_tells_hash(rest[k].content_hash@, voices[i].content_hash@);
    }
}

/// Filters that agree on every element keep the same elements.
proof fn lemma_filters_agree(
    voices: Seq<ImportedVoice>,
    p: spec_fn(ImportedVoice) -> bool,
    q: spec_fn(ImportedVoice) -> bool,
)
    requires
        forall|i: int| 0 <= i < voices.len() ==> p(#[trigger] voices[i]) == q(voices[i]),
    ensures
        voices.filter(p) == voices.filter(q),
    decreases voices.len(),
{
    reveal(Seq::filter);
    if voices.len() > 0 {
        let init = voices.drop_last();
        assert forall|i: int| 0 <= i < init.len() implies p(#[trigger] init[i]) == q(init[i]) by {
            assert(init[i] == voices[i]);
        }
        lemma_filters_agree(init, p, q);
        assert(p(voices[voices.len() - 1]) == q(voices[voices.len() - 1]));
    }
}

/// A filter that refuses an element does not see whether it is there.
proof fn lemma_filter_without(
    voices: Seq<ImportedVoice>,
    i: int,
    p: spec_fn(ImportedVoice) -> bool,
)
    requires
        0 <= i < voices.len(),
        !p(voices[i]),
    ensures
        voices.remove(i).filter(p) == voices.filter(p),
{
    let one = seq![voices[i]];
    let head = voices.take(i);
    let tail = voices.skip(i + 1);
    assert(voices =~= (head + one) + tail);
    assert(voices.remove(i) =~= head + tail);
    Seq::filter_distributes_over_add(head + one, tail, p);
    Seq::filter_distributes_over_add(head, one, p);
    Seq::filter_distributes_over_add(head, tail, p);
    assert(one.filter(p) =~= Seq::empty()) by {
        reveal_with_fuel(Seq::filter, 2);
        assert(one.drop_last() =~= Seq::empty());
        assert(one.last() == voices[i]);
    }
    assert(head.filter(p) + one.filter(p) =~= head.filter(p));
}

/// Deleting a voice and its file leaves the others: loading the registry without the
/// entry gives exactly the voices with another key, in order.
pub proof fn law_deletion_keeps_the_other_voices(
    voices: Seq<ImportedVoice>,
    i: int,
    before: spec_fn(Seq<char>) -> StoredFile,
    after: spec_fn(Seq<char>) -> StoredFile,
)
    requires
        0 <= i < voices.len(),
        forall|j: int| 0 <= j < voices.len() ==> in_use(#[trigger] voices[j], before),
        after(voices[i].file_name@) is NotRegular,
        forall|name: Seq<char>|
            name != voices[i].file_name@ ==> #[trigger] after(name) == before(name),
    ensures
        loaded(voices.remove(i), after) == voices.filter(
            |voice: ImportedVoice| voice.key@ != voices[i].key@,
        ),
{
    let found = |voice: ImportedVoice| in_use(voice, after);
    let others = |voice: ImportedVoice| voice.key@ != voices[i].key@;
    assert(in_use(voices[i], before));
    assert forall|j: int| 0 <= j < voices.len() implies found(#[trigger] voices[j]) == others(
        voices[j],
    ) by {
        assert(in_use(voices[j], before));
        if voices[j].file_name@ == voices[i].file_name@ {
            lemma_file_name_tells_hash(voices[j].content_hash@, voices[i].content_hash@);
        } else if voices[j].key@ == voices[i].key@ {
            lemma_key_tells_hash(voices[j].content_hash@, voices[i].content_hash@);
        }
    }
    lemma_loaded(voices.remove(i), after);
    lemma_filter_without(voices, i, found);
    lemma_filters_agree(voices, found, others);
}

/// Importing the same content again, under whatever name, changes nothing.
pub proof fn law_importing_again_changes_nothing(
    voices: Seq<ImportedVoice>,
    imported: ImportedVoice,
    again: ImportedVoice,
)
    requires
        again.content_hash@ == imported.content_hash@,
    ensures
        registered(registered(voices, imported).0, again) == registered(voices, imported),
{
    let hash = imported.content_hash@;
    let (now, entry) = registered(voices, imported);
    if first_with_hash(voices, hash, 0) is None {
        lemma_pushed_is_first(voices, imported, 0);
    }
}

/// A new entry is the first with its content identity.
proof fn lemma_pushed_is_first(voices: Seq<ImportedVoice>, imported: ImportedVoice, i: int)
    requires
        0 <= i <= voices.len(),
        first_with_hash(voices, imported.content_hash@, i) is None,
    ensures
        first_with_hash(voices.push(imported), imported.content_hash@, i) == Some(
            voices.len() as int,
        ),
    decreases voices.len() - i,
{
    if i < voices.len() {
        lemma_pushed_is_first(voices, imported, i + 1);
    }
}

/// Imports and deletions keep content identities distinct.
pub proof fn law_identities_stay_distinct(
    voices: Seq<ImportedVoice>,
    imported: ImportedVoice,
    i: int,
)
    requires
        distinct(voices),
    ensures
        distinct(registered(voices, imported).0),
        0 <= i < voices.len() ==> distinct(voices.remove(i)),
{
    lemma_first_with_hash(voices, imported.content_hash@, 0);
}

/// What stands under a name in the storage.
pub open spec fn existing_file(files: Map<Seq<char>, StoredFile>, name: Seq<char>) -> Option<
    StoredFile,
> {
    if files.contains_key(name) {
        Some(files[name])
    } else {
        None
    }
}

/// An import whose registry could not be saved leaves the storage as it was, whatever it
/// held: audio that the import wrote is removed at its end, and audio that was there
/// before is neither written nor removed.
pub proof fn law_failed_import_leaves_the_storage(
    files: Map<Seq<char>, StoredFile>,
    voice: ImportedVoice,
    content: StoredFile,
    entry: ImportedVoice,
    error: String,
)
    ensures
        ({
            let name = voice.file_name@;
            placed(voice.content_hash@, existing_file(files, name)) matches Ok(step) ==> {
                let written = match step {
                    AudioStep::Write => files.insert(name, content),
                    AudioStep::Keep => files,
                };
                &&& ended(entry, step, Err(error)) matches ImportEnd::Failed {
                    error: reported,
                    remove_audio,
                }
                &&& reported == error
                &&& files == if remove_audio {
                    written.remove(name)
                } else {
                    written
                }
            }
        }),
{
    let name = voice.file_name@;
    if !files.contains_key(name) {
        assert(files.insert(name, content).remove(name) =~= files);
    }
}

/// An import whose registry was saved ends with its entry, whether or not it wrote audio.
pub proof fn law_saved_import_gives_its_entry(entry: ImportedVoice, step: AudioStep)
    ensures
        ended(entry, step, Ok(())) == ImportEnd::Done(entry),
{
}

/// Deleting a voice that was just imported, and was not there before, gives back the
/// registry as it was.
pub proof fn law_deletion_undoes_import(voices: Seq<ImportedVoice>, imported: ImportedVoice)
    requires
        forall|i: int| 0 <= i < voices.len() ==> consistent(#[trigger] voices[i]),
        consistent(imported),
        first_with_hash(voices, imported.content_hash@, 0) is None,
    ensures
        ({
            let now = registered(voices, imported).0;
            &&& first_with_key(now, imported.key@, 0) == Some(voices.len() as int)
            &&& now.remove(voices.len() as int) == voices
        }),
{
    let now = registered(voices, imported).0;
    lemma_first_with_hash(voices, imported.content_hash@, 0);
    lemma_first_with_key(now, imported.key@, 0);
    assert(now[voices.len() as int].key@ == imported.key@);
    assert forall|j: int| 0 <= j < voices.len() implies (#[trigger] now[j]).key@
        != imported.key@ by {
        assert(now[j] == voices[j]);
        if voices[j].key@ == imported.key@ {
            lemma_key_tells_hash(voices[j].content_hash@, imported.content_hash@);
        }
    }
    assert(now.remove(voices.len() as int) =~= voices);
}

/// The canonical form of a recording can be decoded itself: it is accepted, at the rate
/// of stored voices, unless its 16-bit samples are too quiet.
pub proof fn law_canonical_form_decodes(source: Seq<u8>)
    requires
        source.len() <= usize::MAX,
    ensures
        canonical_of(source) matches Ok(canonical) ==> {
            ||| wav::decoded(canonical) matches Ok((sample_rate, samples)) && sample_rate
                == wav::CANONICAL_SAMPLE_RATE
            ||| wav::decoded(canonical) == Err::<(u32, Seq<u32>), Seq<char>>(
                "Voice WAV is silent or too quiet to clone"@,
            )
        },
{
    if let Ok((sample_rate, samples)) = wav::decoded(source) {
        wav::law_decoded_recording_is_acceptable(source);
        resample::law_resampled_duration_is_kept(samples, sample_rate);
        wav::law_encoded_wav_decodes(
            resample::resampled(samples, sample_rate),
            wav::CANONICAL_SAMPLE_RATE,
        );
    }
}

/// Whether a value, as a multiple of 2^-149, is what a recording has at the time of sample
/// `i` at 32 kHz: its own sample where it has 32 kHz, the point on the line between the two
/// samples around that time, or at its end the last sample.  It may lie two 16-bit steps
/// from a sample, and a 32nd of a step more from the line.
pub open spec fn keeps(samples: Seq<u32>, rate: u32, i: int, value: int) -> bool {
    let one = binary32::one_units() as int;
    let l = (i * rate) / 32_000;
    let r = (i * rate) % 32_000;
    &&& rate == 32_000 ==> 0x8000 * interpolation::size_of(
        value - binary32::signed_units(samples[i]),
    ) <= 2 * one
    &&& l + 1 < samples.len() ==> 0x10_0000 * interpolation::size_of(
        32_000 * value - ((32_000 - r) * binary32::signed_units(samples[l]) + r
            * binary32::signed_units(samples[l + 1])),
    ) <= 2_080_000 * one
    &&& l + 1 >= samples.len() ==> 0x8000 * interpolation::size_of(
        value - binary32::signed_units(samples.last()),
    ) <= 2 * one
}

/// A value close to a converted sample is close to what the recording has at its time.
proof fn lemma_keeps(samples: Seq<u32>, rate: u32, i: int, value: int)
    requires
        rate > 0,
        samples.len() > 0,
        fidelity::full_scale(samples),
        0 <= i < resample::resampled(samples, rate).len(),
        i * rate < 0x20_0000_0000,
        0x8000 * interpolation::size_of(
            value - binary32::signed_units(resample::resampled(samples, rate)[i]),
        ) <= 2 * binary32::one_units(),
    ensures
        keeps(samples, rate, i, value),
{
    interpolation::law_converted_samples_lie_on_the_lines(samples, rate, i);
    let out = resample::resampled(samples, rate)[i];
    let l = (i * rate) / 32_000;
    let r = (i * rate) % 32_000;
    if l + 1 < samples.len() {
        lemma_close_to_line(
            value,
            binary32::signed_units(out),
            (32_000 - r) * binary32::signed_units(samples[l]) + r * binary32::signed_units(
                samples[l + 1],
            ),
            binary32::one_units() as int,
        );
    }
}

/// What is within two 16-bit steps of a value near a line is near that line.
proof fn lemma_close_to_line(kept: int, out: int, line: int, one: int)
    requires
        0x8000 * interpolation::size_of(kept - out) <= 2 * one,
        0x10_0000 * interpolation::size_of(32_000 * out - line) <= 32_000 * one,
    ensures
        0x10_0000 * interpolation::size_of(32_000 * kept - line) <= 2_080_000 * one,
{
}

/// The written form of samples, read again.
proof fn lemma_stored_samples(samples: Seq<u32>, rate: u32, canonical: Seq<u8>, i: int)
    requires
        wav::MIN_SAMPLE_RATE <= rate <= wav::MAX_SAMPLE_RATE,
        wav::MIN_DURATION_SECONDS * rate <= samples.len(),
        samples.len() <= wav::MAX_DURATION_SECONDS * rate,
        fidelity::full_scale(samples),
        canonical == wav::encoded_wav(
            resample::resampled(samples, rate),
            wav::CANONICAL_SAMPLE_RATE,
        ),
    ensures
        wav::decoded(canonical) matches Ok((kept_rate, kept)) ==> {
            &&& kept_rate == 32_000
            &&& kept.len() == resample::resampled(samples, rate).len()
            &&& 0 <= i < kept.len() ==> keeps(samples, rate, i, binary32::signed_units(kept[i]))
        },
{
    let out = resample::resampled(samples, rate);
    resample::law_resampled_duration_is_kept(samples, rate);
    interpolation::lemma_converted_recording_is_within_full_scale(samples, rate);
    fidelity::law_written_samples_stay_close(out, wav::CANONICAL_SAMPLE_RATE);
    if let Ok((kept_rate, kept)) = wav::decoded(canonical) {
        if 0 <= i < out.len() {
            assert(i * rate < 0x20_0000_0000);
            assert(fidelity::within_two_steps(kept[i], out[i]));
            lemma_keeps(samples, rate, i, binary32::signed_units(kept[i]));
        }
    }
}

/// The stored form keeps the whole recording, from its first sample to its last.  Of a
/// source with `n` samples it holds as many as `n` make at 32 kHz, a 16-bit integer each
/// behind the 44 bytes that a mono WAV file begins with, and unless it is too quiet it
/// decodes to them: each of them what the recording has at its time.
pub proof fn law_stored_form_keeps_the_whole_recording(source: Seq<u8>, i: int)
    requires
        source.len() <= usize::MAX,
    ensures
        wav::decoded(source) matches Err(e) ==> canonical_of(source) == Err::<
            Seq<u8>,
            Seq<char>,
        >(e),
        wav::decoded(source) matches Ok((rate, samples)) ==> {
            let len = (samples.len() * 32_000 + rate as nat / 2) / (rate as nat);
            &&& canonical_of(source) matches Ok(canonical)
            &&& canonical.len() == 44 + 2 * len
            &&& writing::begins_as_mono_wave(canonical, 32_000, 2 * len as int)
            &&& 0 <= i < len ==> keeps(
                samples,
                rate,
                i,
                reading::signed_number(canonical, 44 + 2 * i, 2) * writing::step(),
            )
            &&& match wav::decoded(canonical) {
                Ok((kept_rate, kept)) => {
                    &&& kept_rate == 32_000
                    &&& kept.len() == len
                    &&& 0 <= i < len ==> keeps(samples, rate, i, binary32::signed_units(kept[i]))
                },
                Err(e) => {
                    &&& e == "Voice WAV is silent or too quiet to clone"@
                    &&& rate == 32_000 ==> !fidelity::audible(samples)
                },
            }
        },
{
    if let Ok((rate, samples)) = wav::decoded(source) {
        wav::law_decoded_recording_is_acceptable(source);
        let out = resample::resampled(samples, rate);
        let canonical = wav::encoded_wav(out, wav::CANONICAL_SAMPLE_RATE);
        assert(fidelity::full_scale(samples));
        lemma_stored_samples(samples, rate, canonical, i);
        lemma_stored_form(samples, rate);
        resample::law_resampled_duration_is_kept(samples, rate);
        lemma_stored_beginning(out);
        if 0 <= i < out.len() {
            lemma_stored_integers(samples, rate, i);
        }
    }
}

/// What the stored form of decoded samples begins with.
proof fn lemma_stored_beginning(out: Seq<u32>)
    requires
        out.len() <= 960_000,
    ensures
        writing::begins_as_mono_wave(
            wav::encoded_wav(out, wav::CANONICAL_SAMPLE_RATE),
            32_000,
            2 * out.len() as int,
        ),
{
    assert((2 * out.len()) % 0x1_0000_0000 == 2 * out.len());
    writing::law_written_recording_begins_as_wave(out, wav::CANONICAL_SAMPLE_RATE);
}

/// The integers of the stored form of decoded samples.
proof fn lemma_stored_integers(samples: Seq<u32>, rate: u32, i: int)
    requires
        wav::MIN_SAMPLE_RATE <= rate <= wav::MAX_SAMPLE_RATE,
        wav::MIN_DURATION_SECONDS * rate <= samples.len(),
        samples.len() <= wav::MAX_DURATION_SECONDS * rate,
        fidelity::full_scale(samples),
        0 <= i < resample::resampled(samples, rate).len(),
    ensures
        keeps(
            samples,
            rate,
            i,
            reading::signed_number(
                wav::encoded_wav(
                    resample::resampled(samples, rate),
                    wav::CANONICAL_SAMPLE_RATE,
                ),
                44 + 2 * i,
                2,
            ) * writing::step(),
        ),
{
    let out = resample::resampled(samples, rate);
    interpolation::lemma_converted_recording_is_within_full_scale(samples, rate);
    writing::law_written_integers_are_the_nearest(out, wav::CANONICAL_SAMPLE_RATE, i);
    assert(i * rate < 0x20_0000_0000);
    assert(binary32::magnitude(out[i]) <= binary32::ONE);
    lemma_keeps(
        samples,
        rate,
        i,
        reading::signed_number(wav::encoded_wav(out, wav::CANONICAL_SAMPLE_RATE), 44 + 2 * i, 2)
            * writing::step(),
    );
}

/// How long the stored form of decoded samples is, and why it can be refused.
proof fn lemma_stored_form(samples: Seq<u32>, rate: u32)
    requires
        wav::MIN_SAMPLE_RATE <= rate <= wav::MAX_SAMPLE_RATE,
        wav::MIN_DURATION_SECONDS * rate <= samples.len(),
        samples.len() <= wav::MAX_DURATION_SECONDS * rate,
        fidelity::full_scale(samples),
    ensures
        ({
            let out = resample::resampled(samples, rate);
            let canonical = wav::encoded_wav(out, wav::CANONICAL_SAMPLE_RATE);
            let len = (samples.len() * 32_000 + rate as nat / 2) / (rate as nat);
            &&& out.len() == len
            &&& canonical.len() == 44 + 2 * len
            &&& wav::decoded(canonical) matches Err(e) ==> {
                &&& e == "Voice WAV is silent or too quiet to clone"@
                &&& rate == 32_000 ==> !fidelity::audible(samples)
            }
        }),
{
    let out = resample::resampled(samples, rate);
    let n = samples.len();
    if rate == 32_000 {
        assert((n * 32_000 + 16_000) / 32_000 == n);
    }
    resample::law_resampled_duration_is_kept(samples, rate);
    wav::lemma_encoded_len(out, wav::CANONICAL_SAMPLE_RATE);
    wav::law_encoded_wav_decodes(out, wav::CANONICAL_SAMPLE_RATE);
    if rate == 32_000 && fidelity::audible(samples) {
        fidelity::law_audible_recording_is_read_back(samples, wav::CANONICAL_SAMPLE_RATE);
    }
}

/// An entry is consistent exactly where its key is `pocket:imported:` and its content
/// identity, its file the identity and `.wav`, and the identity has the form of one.
pub proof fn law_consistent_entries(voice: ImportedVoice)
    ensures
        consistent(voice) <==> {
            let hash = voice.content_hash@;
            let key = voice.key@;
            let name = voice.file_name@;
            &&& identity::well_formed_hash(hash)
            &&& key.len() == 80 && key.take(16) == "pocket:imported:"@ && key.skip(16) == hash
            &&& name.len() == 68 && name.take(64) == hash && name.skip(64) == ".wav"@
        },
{
    let hash = voice.content_hash@;
    let key = voice.key@;
    let name = voice.file_name@;
    reveal_strlit("pocket:imported:");
    reveal_strlit(".wav");
    if hash.len() == 64 {
        if key == key_of(hash) {
            assert(key.take(16) =~= "pocket:imported:"@);
            assert(key.skip(16) =~= hash);
        }
        if name == file_name_of(hash) {
            assert(name.take(64) =~= hash);
            assert(name.skip(64) =~= ".wav"@);
        }
        if key.len() == 80 && key.take(16) == "pocket:imported:"@ && key.skip(16) == hash {
            assert(key =~= key.take(16) + key.skip(16));
        }
        if name.len() == 68 && name.take(64) == hash && name.skip(64) == ".wav"@ {
            assert(name =~= name.take(64) + name.skip(64));
        }
    }
}

/// A voice can be used exactly where its file has the name of its content identity, is
/// there, and has a content with that identity.
pub proof fn law_usable_voices(voice: ImportedVoice, file: StoredFile)
    ensures
        resolved(voice, file) is Ok <==> {
            &&& identity::well_formed_hash(voice.content_hash@)
            &&& voice.file_name@ == voice.content_hash@ + ".wav"@
            &&& file matches StoredFile::Content(content)
            &&& identity::lower_hex(identity::sha256_digest(content@)) == voice.content_hash@
        },
{
}

/// A voice that cannot be used is reported by its name where its file is missing or holds
/// something else, and by the error where the file could not be read.
pub proof fn law_unusable_voices_are_reported(voice: ImportedVoice, file: StoredFile)
    ensures
        resolved(voice, file) matches Err(m) ==> m == if voice.file_name@ != voice.content_hash@
            + ".wav"@ || !identity::well_formed_hash(voice.content_hash@) {
            "Imported voice registry contains an invalid file identity"@
        } else {
            match file {
                StoredFile::NotRegular => "Imported voice "@ + voice.display_name@ + " is missing"@,
                StoredFile::Unreadable(e) => "could not verify imported voice: "@ + e@,
                StoredFile::Content(_) => "Imported voice "@ + voice.display_name@
                    + " does not match its content identity"@,
            }
        },
{
}

/// A registry that is too new is refused by its version, in decimal.
pub proof fn law_newer_registry_is_named(version: nat) -> (digits: Seq<char>)
    ensures
        text::value_of(digits) == version,
        newer_registry_message(version) == "imported voice registry version "@ + digits
            + " is newer than this Buzz build supports"@,
{
    text::law_decimal_can_be_read_again(version);
    text::decimal_of(version)
}

/// Loading a registry keeps, in their order, exactly the consistent entries whose files
/// are there with a content of their identity.
pub proof fn law_loading_keeps_backed_entries(
    voices: Seq<ImportedVoice>,
    storage: spec_fn(Seq<char>) -> StoredFile,
)
    ensures
        loaded(voices, storage) == voices.filter(
            |voice: ImportedVoice|
                consistent(voice) && (storage(voice.content_hash@ + ".wav"@) matches
                    StoredFile::Content(content) && identity::lower_hex(
                    identity::sha256_digest(content@),
                ) == voice.content_hash@),
        ),
{
    let backed = |voice: ImportedVoice|
        consistent(voice) && (storage(voice.content_hash@ + ".wav"@) matches StoredFile::Content(
            content,
        ) && identity::lower_hex(identity::sha256_digest(content@)) == voice.content_hash@);
    lemma_loaded(voices, storage);
    lemma_filters_agree(voices, |voice: ImportedVoice| in_use(voice, storage), backed);
}

/// The audio of an import is written exactly where nothing is in its place, and kept
/// exactly where a content with its identity is; anything else there refuses the import.
pub proof fn law_audio_is_never_overwritten(hash: Seq<char>, existing: Option<StoredFile>)
    ensures
        placed(hash, existing) == Ok::<AudioStep, Seq<char>>(AudioStep::Write) <==> existing
            is None,
        placed(hash, existing) == Ok::<AudioStep, Seq<char>>(AudioStep::Keep) <==> {
            &&& existing matches Some(StoredFile::Content(content))
            &&& identity::lower_hex(identity::sha256_digest(content@)) == hash
        },
        placed(hash, existing) matches Err(m) ==> m == match existing->Some_0 {
            StoredFile::NotRegular => "Imported voice storage contains an unsafe file entry"@,
            StoredFile::Unreadable(e) => "could not verify imported voice audio: "@ + e@,
            StoredFile::Content(_) => "Imported voice storage contains mismatched audio data"@,
        },
{
}

/// Importing keeps every entry where it stands.  A content that is new is entered at the
/// end; one that some entry has already adds none, and the first such entry is given.
pub proof fn law_importing_enters_new_content_only(
    voices: Seq<ImportedVoice>,
    imported: ImportedVoice,
    i: int,
)
    ensures
        (forall|j: int|
            0 <= j < voices.len() ==> (#[trigger] voices[j]).content_hash@
                != imported.content_hash@) ==> registered(voices, imported) == (
            voices + seq![imported],
            imported,
        ),
        0 <= i < voices.len() && voices[i].content_hash@ == imported.content_hash@ && (forall|
            j: int,
        |
            0 <= j < i ==> (#[trigger] voices[j]).content_hash@ != imported.content_hash@)
            ==> registered(voices, imported) == (voices, voices[i]),
{
    let hash = imported.content_hash@;
    lemma_first_with_hash(voices, hash, 0);
    assert(voices.push(imported) =~= voices + seq![imported]);
}

/// The voice that a key deletes is the first one that has it, wherever it stands; a key
/// that no voice has deletes none.
pub proof fn law_key_finds_the_first_voice(voices: Seq<ImportedVoice>, key: Seq<char>, i: int)
    ensures
        first_with_key(voices, key, 0) == Some(i) <==> {
            &&& 0 <= i < voices.len()
            &&& voices[i].key@ == key
            &&& forall|j: int| 0 <= j < i ==> (#[trigger] voices[j]).key@ != key
        },
        first_with_key(voices, key, 0) is None <==> forall|j: int|
            0 <= j < voices.len() ==> (#[trigger] voices[j]).key@ != key,
{
    lemma_first_with_key(voices, key, 0);
}

} // verus!
