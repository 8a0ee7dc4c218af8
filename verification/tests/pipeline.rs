use std::io::Cursor;
use wav2srt::{extract_wav_and_txt, make_srt, make_srt_blocks, FileEntry, FileKind, SourceFile,
    SrtBlock, SrtError};

fn wav_bytes(rate: u32, n_samples: usize) -> Vec<u8> {
    let header = wav::Header::new(wav::WAV_FORMAT_PCM, 1, rate, 16);
    let samples: Vec<i16> = vec![0i16; n_samples];
    let mut cursor = Cursor::new(Vec::new());
    wav::write(header, &wav::BitDepth::Sixteen(samples), &mut cursor).unwrap();
    cursor.into_inner()
}

fn audio(name: &str, rate: u32, n_samples: usize) -> SourceFile {
    SourceFile { name: name.to_string(), data: wav_bytes(rate, n_samples) }
}

fn text(name: &str, contents: &str) -> SourceFile {
    SourceFile { name: name.to_string(), data: contents.as_bytes().to_vec() }
}

fn voice_files() -> Vec<SourceFile> {
    vec![
        audio("000.wav", 1000, 7288),
        text("000.txt", "時は第三次中東戦争と第四次中東戦争の間の1973年2月初旬"),
        audio("001.wav", 1000, 6434),
        text("001.txt", "エジプトを盟主とする中東アラブ諸国とイスラエルは、とてもピリピリした状態にありました"),
        audio("002.wav", 1000, 8766),
        text("002.txt", "砂塵舞うベンガジ空港を飛び立ち、リビアン・アラブ航空114便は地中海を渡ってエジプトの首都カイロへ向かいます"),
        audio("003.wav", 1000, 9059),
        text("003.txt", "コックピットにはフランス人機長、その右隣にフランス人航空機関士、後ろにはリビア人副操縦士が乗っていました"),
    ]
}

#[test]
fn test_extract_wav_and_txt_ok() {
    let entries = extract_wav_and_txt(voice_files()).unwrap();
    assert_eq!(entries.len(), 8);
    assert_eq!(entries[0].name, "000.wav");
    assert!(matches!(entries[0].kind, FileKind::Audio));
    assert_eq!(entries[1].name, "000.txt");
    assert!(matches!(entries[1].kind, FileKind::Text));
}

#[test]
fn test_extract_wav_and_txt_no_wav() {
    let files = vec![text("000.txt", "a"), text("001.txt", "b")];
    assert_eq!(extract_wav_and_txt(files).unwrap_err(), SrtError::MissingAudio);
}

#[test]
fn test_extract_wav_and_txt_no_txt() {
    let files = vec![audio("000.wav", 1000, 100), audio("001.wav", 1000, 100)];
    assert_eq!(extract_wav_and_txt(files).unwrap_err(), SrtError::MissingText);
}

#[test]
fn test_extract_wav_and_txt_no_match() {
    let files = vec![
        audio("000.wav", 1000, 100),
        audio("001.wav", 1000, 100),
        audio("002.wav", 1000, 100),
        text("000.txt", "a"),
        text("001.txt", "b"),
    ];
    assert_eq!(extract_wav_and_txt(files).unwrap_err(), SrtError::CountMismatch);
}

#[test]
fn test_extract_ignores_unrecognised_names() {
    let files = vec![
        audio("000.wav", 1000, 100),
        text("000.txt", "a"),
        text("notes.md", "ignored"),
        text(".txt", "a dotfile is all extension and is ignored"),
        text("keep.WAV", "wrong case, ignored"),
    ];
    let entries = extract_wav_and_txt(files).unwrap();
    assert_eq!(entries.len(), 2);
}

#[test]
fn test_make_srt_blocks_ok() {
    let files = extract_wav_and_txt(voice_files()).unwrap();
    let srt_blocks = make_srt_blocks(files).unwrap();

    let correct = vec![
        SrtBlock {
            index: 1,
            start_time_string: "00:00:00,000".to_string(),
            end_time_string: "00:00:07,288".to_string(),
            text: "時は第三次中東戦争と第四次中東戦争の間の1973年2月初旬".to_string(),
        },
        SrtBlock {
            index: 2,
            start_time_string: "00:00:07,288".to_string(),
            end_time_string: "00:00:13,722".to_string(),
            text: "エジプトを盟主とする中東アラブ諸国とイスラエルは、とてもピリピリした状態にありました".to_string(),
        },
        SrtBlock {
            index: 3,
            start_time_string: "00:00:13,722".to_string(),
            end_time_string: "00:00:22,488".to_string(),
            text: "砂塵舞うベンガジ空港を飛び立ち、リビアン・アラブ航空114便は地中海を渡ってエジプトの首都カイロへ向かいます".to_string(),
        },
        SrtBlock {
            index: 4,
            start_time_string: "00:00:22,488".to_string(),
            end_time_string: "00:00:31,547".to_string(),
            text: "コックピットにはフランス人機長、その右隣にフランス人航空機関士、後ろにはリビア人副操縦士が乗っていました".to_string(),
        },
    ];

    assert_eq!(correct[0], srt_blocks[0]);
    assert_eq!(correct[1], srt_blocks[1]);
    assert_eq!(correct[2], srt_blocks[2]);
    assert_eq!(correct[3], srt_blocks[3]);
}

#[test]
fn test_two_block_output() {
    let files = vec![
        audio("000.wav", 1000, 7288),
        text("000.txt", "A"),
        audio("001.wav", 1000, 6434),
        text("001.txt", "B"),
    ];
    let entries = extract_wav_and_txt(files).unwrap();
    let blocks = make_srt_blocks(entries).unwrap();
    let out = make_srt(&blocks);
    assert_eq!(
        out,
        "1\n00:00:00,000 --> 00:00:07,288\nA\n\n2\n00:00:07,288 --> 00:00:13,722\nB"
    );
}

#[test]
fn test_unpaired_block() {
    let files = vec![
        audio("000.wav", 1000, 100),
        audio("001.wav", 1000, 100),
        text("001.txt", "valid pair beyond the unpaired one"),
        text("002.txt", "padding so the counts agree"),
    ];
    let entries = extract_wav_and_txt(files).unwrap();
    assert_eq!(make_srt_blocks(entries).unwrap_err(), SrtError::UnpairedBlock);
}

#[test]
fn test_gap_stops_scan() {
    let files = vec![
        audio("000.wav", 1000, 1000),
        text("000.txt", "before the gap"),
        audio("002.wav", 1000, 1000),
        text("002.txt", "beyond the gap, never reached"),
    ];
    let entries = extract_wav_and_txt(files).unwrap();
    let blocks = make_srt_blocks(entries).unwrap();
    assert_eq!(blocks.len(), 1);
    assert_eq!(blocks[0].index, 1);
    assert_eq!(blocks[0].text, "before the gap");
}

#[test]
fn test_audio_decode_error() {
    let mut bad = audio("000.wav", 1000, 100);
    bad.data = b"not a riff container at all".to_vec();
    let files = vec![bad, text("000.txt", "a")];
    let entries = extract_wav_and_txt(files).unwrap();
    assert_eq!(make_srt_blocks(entries).unwrap_err(), SrtError::AudioDecodeError);
}

#[test]
fn test_unpaired_block_reported_before_audio_decode() {
    let mut bad = audio("000.wav", 1000, 100);
    bad.data = b"not a riff container at all".to_vec();
    let files = vec![bad, text("001.txt", "pairs with nothing")];
    let entries = extract_wav_and_txt(files).unwrap();
    assert_eq!(make_srt_blocks(entries).unwrap_err(), SrtError::UnpairedBlock);
}

#[test]
fn test_truncated_riff_is_a_decode_error() {
    let mut bad = audio("000.wav", 1000, 100);
    let mut data = b"RIFF".to_vec();
    data.extend_from_slice(&100u32.to_le_bytes());
    data.extend_from_slice(b"WAVE");
    bad.data = data;
    let files = vec![bad, text("000.txt", "a")];
    let entries = extract_wav_and_txt(files).unwrap();
    assert_eq!(make_srt_blocks(entries).unwrap_err(), SrtError::AudioDecodeError);
}

#[test]
fn test_non_utf8_chunk_id_is_a_decode_error() {
    let mut bad = audio("000.wav", 1000, 100);
    let mut data = b"RIFF".to_vec();
    data.extend_from_slice(&12u32.to_le_bytes());
    data.extend_from_slice(b"WAVE");
    data.extend_from_slice(&[0xff, 0xff, 0xff, 0xff]);
    data.extend_from_slice(&0u32.to_le_bytes());
    bad.data = data;
    let files = vec![bad, text("000.txt", "a")];
    let entries = extract_wav_and_txt(files).unwrap();
    assert_eq!(make_srt_blocks(entries).unwrap_err(), SrtError::AudioDecodeError);
}

#[test]
fn test_text_read_error() {
    let mut bad = text("000.txt", "");
    bad.data = vec![0xff, 0xfe, 0x41];
    let files = vec![audio("000.wav", 1000, 100), bad];
    let entries = extract_wav_and_txt(files).unwrap();
    assert_eq!(make_srt_blocks(entries).unwrap_err(), SrtError::TextReadError);
}

#[test]
fn test_prefix_matching_is_string_prefix() {
    let files = vec![
        audio("000-intro.wav", 1000, 2000),
        text("000-intro.txt", "suffixes after the padded digits still match"),
    ];
    let entries = extract_wav_and_txt(files).unwrap();
    let blocks = make_srt_blocks(entries).unwrap();
    assert_eq!(blocks.len(), 1);
    assert_eq!(blocks[0].end_time_string, "00:00:02,000");
}

#[test]
fn test_time_formatting_past_an_hour() {
    let files = vec![audio("000.wav", 1, 3661), text("000.txt", "an hour and change")];
    let entries = extract_wav_and_txt(files).unwrap();
    let blocks = make_srt_blocks(entries).unwrap();
    assert_eq!(blocks[0].end_time_string, "01:01:01,000");
}

#[test]
fn test_sub_millisecond_remainder_rounds_down() {
    let files = vec![audio("000.wav", 3, 10), text("000.txt", "ten thirds of a second")];
    let entries = extract_wav_and_txt(files).unwrap();
    let blocks = make_srt_blocks(entries).unwrap();
    assert_eq!(blocks[0].end_time_string, "00:00:03,333");
}

#[test]
fn test_trailing_whitespace_trimmed_once_at_top_level() {
    let files = vec![
        audio("000.wav", 1000, 1000),
        text("000.txt", "kept \n"),
        audio("001.wav", 1000, 1000),
        text("001.txt", "trimmed \n"),
    ];
    let entries = extract_wav_and_txt(files).unwrap();
    let blocks = make_srt_blocks(entries).unwrap();
    let out = make_srt(&blocks);
    assert_eq!(
        out,
        "1\n00:00:00,000 --> 00:00:01,000\nkept \n\n\n2\n00:00:01,000 --> 00:00:02,000\ntrimmed"
    );
}

#[test]
fn test_serialized_output_reparses_to_the_blocks() {
    let files = extract_wav_and_txt(voice_files()).unwrap();
    let blocks = make_srt_blocks(files).unwrap();
    let out = make_srt(&blocks);
    let pieces: Vec<&str> = out.split("\n\n").collect();
    assert_eq!(pieces.len(), blocks.len());
    for (piece, block) in pieces.iter().zip(blocks.iter()) {
        let lines: Vec<&str> = piece.splitn(3, '\n').collect();
        assert_eq!(lines.len(), 3);
        assert_eq!(lines[0], block.index.to_string());
        assert_eq!(
            lines[1],
            format!("{} --> {}", block.start_time_string, block.end_time_string)
        );
        assert_eq!(lines[2], block.text);
    }
}

#[test]
fn test_block_count_equals_file_counts() {
    let files = extract_wav_and_txt(voice_files()).unwrap();
    let n_audio =
        files.iter().filter(|e| matches!(e.kind, FileKind::Audio)).count();
    let n_text = files.iter().filter(|e| matches!(e.kind, FileKind::Text)).count();
    let blocks = make_srt_blocks(files).unwrap();
    assert_eq!(blocks.len(), n_audio);
    assert_eq!(blocks.len(), n_text);
}

#[test]
fn test_duplicate_prefix_picks_first_in_listing_order() {
    let files = vec![
        audio("000a.wav", 1000, 1000),
        audio("000b.wav", 1000, 9000),
        text("000.txt", "first audio in listing order wins"),
        text("000c.txt", "second text of the same prefix, ignored"),
        audio("001.wav", 1000, 1000),
        text("001.txt", "second block"),
    ];
    let entries = extract_wav_and_txt(files).unwrap();
    let blocks = make_srt_blocks(entries).unwrap();
    assert_eq!(blocks.len(), 2);
    assert_eq!(blocks[0].end_time_string, "00:00:01,000");
    assert_eq!(blocks[0].text, "first audio in listing order wins");
}

#[test]
fn test_error_descriptions_name_the_failure_kind() {
    assert_eq!(
        SrtError::PathNotFound.describe(),
        "input directory does not exist or cannot be listed"
    );
    assert_eq!(SrtError::MissingAudio.describe(), "no audio files found in the input directory");
    assert_eq!(SrtError::CountMismatch.describe(), "audio and text file counts differ");
    assert_eq!(SrtError::WriteError.describe(), "the output file could not be written");
}

#[test]
fn test_file_entry_keeps_name_kind_and_data() {
    let files = vec![audio("000.wav", 1000, 4), text("000.txt", "abc")];
    let entries: Vec<FileEntry> = extract_wav_and_txt(files).unwrap();
    assert_eq!(entries[1].name, "000.txt");
    assert!(matches!(entries[1].kind, FileKind::Text));
    assert_eq!(entries[1].data, b"abc".to_vec());
}
