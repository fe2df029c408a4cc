//! Importing, finding and deleting voices.

use pocket_voice::identity::content_identity;
use pocket_voice::voices::{admit_source, after_removal, canonical_wav, delete, deletion_failure};
use pocket_voice::voices::{duplicate_voices, end_import, has_own_file_name, is_consistent};
use pocket_voice::voices::{load_registry, place_audio, prepare_import, register};
use pocket_voice::voices::{registry_to_save, resolve_file, MAX_SOURCE_BYTES};
use pocket_voice::voices::{AudioStep, DeletionStep, ImportEnd, ImportedVoice};
use pocket_voice::voices::{ImportedVoiceRegistry, Removal, StoredFile, StoredRegistry};
use pocket_voice::wav::{decode_wav, encode_pcm16_wav};

fn recording(sample_rate: u32, pitch: f32) -> Vec<u8> {
    let samples: Vec<u32> = (0..sample_rate as usize * 2)
        .map(|index| {
            let phase = std::f32::consts::TAU * pitch * index as f32 / sample_rate as f32;
            (0.5 * phase.sin()).to_bits()
        })
        .collect();
    encode_pcm16_wav(&samples, sample_rate)
}

/// The entry that importing a content gives.
fn voice(name: &str, content: &[u8]) -> ImportedVoice {
    let hash = content_identity(content);
    ImportedVoice {
        key: format!("pocket:imported:{hash}"),
        display_name: name.to_string(),
        file_name: format!("{hash}.wav"),
        content_hash: hash,
    }
}

/// A storage that holds the given contents under the names of their identities.
fn storage<'a>(contents: &'a [&'a [u8]]) -> impl Fn(&ImportedVoice) -> StoredFile + 'a {
    move |voice: &ImportedVoice| {
        for content in contents {
            if voice.file_name == format!("{}.wav", content_identity(content)) {
                return StoredFile::Content(content.to_vec());
            }
        }
        StoredFile::NotRegular
    }
}

fn parsed(version: u32, voices: &[ImportedVoice]) -> StoredRegistry {
    StoredRegistry::Parsed(ImportedVoiceRegistry { version, voices: voices.to_vec() })
}

#[test]
fn sources_are_admitted_by_size() {
    assert_eq!(admit_source(Ok(0)), Ok(()));
    assert_eq!(MAX_SOURCE_BYTES, 26_214_400);
    assert_eq!(admit_source(Ok(MAX_SOURCE_BYTES)), Ok(()));
    assert_eq!(
        admit_source(Ok(MAX_SOURCE_BYTES + 1)),
        Err("Voice WAV must be 25 MB or smaller".to_string())
    );
    assert_eq!(
        admit_source(Err("no such file".to_string())),
        Err("could not inspect selected WAV: no such file".to_string())
    );
}

#[test]
fn a_prepared_voice_is_named_after_its_canonical_content() {
    let source = recording(44_100, 220.0);
    let prepared = prepare_import(Ok(source.clone()), Some(" Marius ")).expect("prepared");
    assert_eq!(prepared.canonical.len(), 44 + 2 * 64_000);
    assert_eq!(canonical_wav(&source), Ok(prepared.canonical.clone()));
    let hash = content_identity(&prepared.canonical);
    assert_eq!(prepared.voice.content_hash, hash);
    assert_eq!(prepared.voice.key, format!("pocket:imported:{hash}"));
    assert_eq!(prepared.voice.file_name, format!("{hash}.wav"));
    assert_eq!(prepared.voice.display_name, "Marius");
    assert!(is_consistent(&prepared.voice));
    assert_ne!(hash, content_identity(&source));

    let decoded = decode_wav(&prepared.canonical).expect("canonical form decodes");
    assert_eq!(decoded.sample_rate, 32_000);
    assert_eq!(decoded.samples.len(), 64_000);
    assert_eq!(
        resolve_file(&prepared.voice, &StoredFile::Content(prepared.canonical)),
        Ok(())
    );
}

#[test]
fn a_recording_that_does_not_decode_is_not_prepared() {
    let error = prepare_import(Ok(b"RIFF".to_vec()), None).err();
    assert_eq!(error, Some("Selected file is not a valid RIFF/WAVE file".to_string()));
    let error = prepare_import(Err("denied".to_string()), None).err();
    assert_eq!(error, Some("could not read selected WAV: denied".to_string()));
    assert_eq!(
        canonical_wav(b""),
        Err("Selected file is not a valid RIFF/WAVE file".to_string())
    );
}

#[test]
fn audio_is_written_unless_it_is_there() {
    let marius = voice("Marius", b"marius");
    assert_eq!(place_audio(&marius, None), Ok(AudioStep::Write));
    assert_eq!(
        place_audio(&marius, Some(StoredFile::Content(b"marius".to_vec()))),
        Ok(AudioStep::Keep)
    );
    assert_eq!(
        place_audio(&marius, Some(StoredFile::Content(b"other".to_vec()))),
        Err("Imported voice storage contains mismatched audio data".to_string())
    );
    assert_eq!(
        place_audio(&marius, Some(StoredFile::NotRegular)),
        Err("Imported voice storage contains an unsafe file entry".to_string())
    );
    assert_eq!(
        place_audio(&marius, Some(StoredFile::Unreadable("denied".to_string()))),
        Err("could not verify imported voice audio: denied".to_string())
    );
}

#[test]
fn files_are_resolved_or_the_reason_is_given() {
    let marius = voice("Marius", b"marius");
    assert_eq!(resolve_file(&marius, &StoredFile::Content(b"marius".to_vec())), Ok(()));
    assert_eq!(
        resolve_file(&marius, &StoredFile::NotRegular),
        Err("Imported voice Marius is missing".to_string())
    );
    assert_eq!(
        resolve_file(&marius, &StoredFile::Unreadable("denied".to_string())),
        Err("could not verify imported voice: denied".to_string())
    );
    assert_eq!(
        resolve_file(&marius, &StoredFile::Content(b"other".to_vec())),
        Err("Imported voice Marius does not match its content identity".to_string())
    );
    let invalid = "Imported voice registry contains an invalid file identity".to_string();
    let mut moved = marius.clone();
    moved.file_name = "../elsewhere.wav".to_string();
    assert_eq!(resolve_file(&moved, &StoredFile::NotRegular), Err(invalid.clone()));
    assert!(!has_own_file_name(&moved));
    let mut short = marius;
    short.content_hash.pop();
    short.file_name = format!("{}.wav", short.content_hash);
    assert_eq!(resolve_file(&short, &StoredFile::NotRegular), Err(invalid));
}

#[test]
fn a_missing_registry_is_empty_and_a_bad_one_is_refused() {
    let read = storage(&[]);
    assert_eq!(load_registry(StoredRegistry::Missing, &read), Ok(Vec::new()));
    assert_eq!(
        load_registry(StoredRegistry::Unreadable("denied".to_string()), &read),
        Err("could not read imported voices: denied".to_string())
    );
    assert_eq!(
        load_registry(StoredRegistry::Invalid("expected value".to_string()), &read),
        Err("imported voice registry is invalid: expected value".to_string())
    );
    assert_eq!(
        load_registry(parsed(2, &[]), &read),
        Err("imported voice registry version 2 is newer than this Buzz build supports".to_string())
    );
    assert_eq!(load_registry(parsed(0, &[]), &read), Ok(Vec::new()));
}

#[test]
fn loading_keeps_the_voices_that_can_be_used() {
    let marius = voice("Marius", b"marius");
    let gone = voice("Gone", b"gone");
    let mary = voice("Mary", b"mary");
    let mut renamed = voice("Renamed", b"renamed");
    renamed.key.push('x');
    let mut unhashed = voice("Unhashed", b"unhashed");
    unhashed.content_hash = "zz".to_string();
    let listed = [marius.clone(), gone, renamed, mary.clone(), unhashed];
    let contents: [&[u8]; 4] = [b"marius", b"mary", b"renamed", b"unhashed"];
    assert_eq!(
        load_registry(parsed(1, &listed), storage(&contents)),
        Ok(vec![marius, mary])
    );
}

#[test]
fn only_files_of_consistent_entries_are_read() {
    let mut outside = voice("Outside", b"outside");
    outside.file_name = "../outside.wav".to_string();
    let mut renamed = voice("Renamed", b"renamed");
    renamed.key.push('x');
    let listed = [outside, renamed];
    assert_eq!(load_registry(parsed(1, &listed), |_| unreachable!()), Ok(Vec::new()));
    let marius = [voice("Marius", b"marius")];
    assert!(load_registry(parsed(2, &marius), |_| unreachable!()).is_err());
}

#[test]
fn an_imported_voice_survives_a_relaunch() {
    let marius = voice("Marius", b"marius");
    let mary = voice("Mary", b"mary");
    let (voices, entry) = register(vec![mary.clone()], marius.clone());
    assert_eq!(entry, marius);
    let saved = registry_to_save(&voices);
    assert_eq!(saved.version, 1);
    let contents: [&[u8]; 2] = [b"marius", b"mary"];
    let reloaded = load_registry(StoredRegistry::Parsed(saved), storage(&contents));
    assert_eq!(reloaded, Ok(vec![mary, marius]));
}

#[test]
fn importing_the_same_content_again_keeps_the_first_entry() {
    let first = voice("Marius", b"marius");
    let again = voice("Marius again", b"marius");
    let other = voice("Mary", b"mary");
    let (voices, _) = register(vec![first.clone()], other.clone());
    let (voices, entry) = register(voices, again);
    assert_eq!(entry, first);
    assert_eq!(voices, vec![first, other]);
}

#[test]
fn a_failed_save_removes_only_audio_that_was_written() {
    let marius = voice("Marius", b"marius");
    match end_import(marius.clone(), AudioStep::Write, Ok(())) {
        ImportEnd::Done(entry) => assert_eq!(entry, marius),
        ImportEnd::Failed { .. } => panic!("saved"),
    }
    for (step, removed) in [(AudioStep::Write, true), (AudioStep::Keep, false)] {
        match end_import(marius.clone(), step, Err("disk full".to_string())) {
            ImportEnd::Done(_) => panic!("not saved"),
            ImportEnd::Failed { error, remove_audio } => {
                assert_eq!(error, "disk full");
                assert_eq!(remove_audio, removed);
            }
        }
    }
}

#[test]
fn deletion_undoes_an_import() {
    let marius = voice("Marius", b"marius");
    let mary = voice("Mary", b"mary");
    let (voices, _) = register(vec![mary.clone()], marius.clone());
    let deletion = delete(voices.clone(), &marius.key).expect("known voice");
    assert_eq!(deletion.remaining, vec![mary]);
    assert_eq!(deletion.previous, voices);
    assert_eq!(deletion.file_name, marius.file_name);
    assert_eq!(
        delete(voices, "pocket:mary").err(),
        Some("Unknown imported voice: pocket:mary".to_string())
    );
}

#[test]
fn a_deleted_voice_is_gone_after_a_relaunch() {
    let marius = voice("Marius", b"marius");
    let mary = voice("Mary", b"mary");
    // Even a second entry for the same file is not found again once the file is gone.
    let voices = vec![marius.clone(), mary.clone(), marius.clone()];
    let deletion = delete(voices, &marius.key).expect("known voice");
    assert_eq!(deletion.remaining.len(), 2);
    let saved = registry_to_save(&deletion.remaining);
    let contents: [&[u8]; 1] = [b"mary"];
    assert_eq!(
        load_registry(StoredRegistry::Parsed(saved), storage(&contents)),
        Ok(vec![mary])
    );
}

#[test]
fn deletion_leaves_exactly_the_voices_with_another_key() {
    let marius = voice("Marius", b"marius");
    let mary = voice("Mary", b"mary");
    let alba = voice("Alba", b"alba");
    let twin = voice("Marius again", b"marius");
    let voices = vec![mary.clone(), marius.clone(), alba.clone(), twin, mary.clone()];
    let deletion = delete(voices, &marius.key).expect("known voice");
    let saved = registry_to_save(&deletion.remaining);
    let contents: [&[u8]; 2] = [b"mary", b"alba"];
    assert_eq!(
        load_registry(StoredRegistry::Parsed(saved), storage(&contents)),
        Ok(vec![mary.clone(), alba, mary])
    );
}

#[test]
fn a_failed_removal_restores_the_registry() {
    let marius = voice("Marius", b"marius");
    let voices = vec![marius.clone()];
    for removal in [Removal::Removed, Removal::Missing] {
        let deletion = delete(voices.clone(), &marius.key).expect("known voice");
        assert!(matches!(after_removal(deletion, removal), DeletionStep::Done));
    }
    let deletion = delete(voices.clone(), &marius.key).expect("known voice");
    match after_removal(deletion, Removal::Failed("locked".to_string())) {
        DeletionStep::Done => panic!("removal failed"),
        DeletionStep::Restore { voices: restored, error } => {
            assert_eq!(restored, voices);
            assert_eq!(
                deletion_failure(&error, Ok(())),
                "Imported voice audio could not be deleted: locked"
            );
            assert_eq!(
                deletion_failure(&error, Err("disk full".to_string())),
                "Imported voice audio could not be deleted (locked), and its registry entry \
                 could not be restored (disk full)"
            );
        }
    }
}

#[test]
fn copies_are_equal() {
    let voices = vec![voice("Marius", b"marius"), voice("Mary", b"mary")];
    assert_eq!(duplicate_voices(&voices), voices);
    assert_eq!(voices[0].duplicate(), voices[0]);
}
