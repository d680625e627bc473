use substudy::align::combine_files;
use substudy::clean::clean_line_text;
use substudy::commands::{cmd_clean, cmd_combine, cmd_export, ExportFormat, ExportKind};
use substudy::cue::{BilingualCue, Cue, SubtitleFile};
use substudy::error::SubError;
use substudy::time::Time;

fn t(ms: u64) -> Time {
    Time::from_millis(ms)
}

fn lines(v: &[&str]) -> Vec<String> {
    v.iter().map(|s| s.to_string()).collect()
}

fn parse(text: &str) -> SubtitleFile {
    SubtitleFile::from_text(text).expect("parses")
}

fn summary(f: &SubtitleFile) -> Vec<(u64, u64, Vec<String>)> {
    f.cues.iter().map(|c| (c.start.ms, c.end.ms, c.lines.clone())).collect()
}

fn bi(c: &BilingualCue) -> (u64, u64, Vec<String>, Vec<String>) {
    (c.start.ms, c.end.ms, c.foreign_lines.clone(), c.native_lines.clone())
}

#[test]
fn time_parse_values() {
    assert_eq!(Time::parse("0:00:01,000"), Ok(t(1000)));
    assert_eq!(Time::parse("01:02:03,456"), Ok(t(3723456)));
    assert_eq!(Time::parse("123:00:00,001"), Ok(t(442800001)));
}

#[test]
fn time_parse_rejects_bad_text() {
    for bad in ["", "00:60:00,000", "00:00:60,000", "00:00:00.000", "00:0:00,000", "ab:00:00,000", "00:00:00,00"] {
        assert_eq!(Time::parse(bad), Err(SubError::MalformedTimestamp), "{}", bad);
    }
    assert_eq!(Time::parse("99999999999999:00:00,000"), Err(SubError::MalformedTimestamp));
}

#[test]
fn time_format_values() {
    assert_eq!(t(0).format(), "00:00:00,000");
    assert_eq!(t(3723456).format(), "01:02:03,456");
    assert_eq!(t(442800001).format(), "123:00:00,001");
}

#[test]
fn time_format_parse_inverse() {
    for ms in [0u64, 1, 999, 1000, 59999, 60000, 3599999, 3600000, 86399999, 1234567890123, u64::MAX] {
        assert_eq!(Time::parse(&t(ms).format()), Ok(t(ms)));
    }
}

#[test]
fn time_arithmetic() {
    assert_eq!(t(500).saturating_sub(t(700)), t(0));
    assert_eq!(t(700).saturating_sub(t(500)), t(200));
    assert_eq!(t(700).checked_add(t(500)), Some(t(1200)));
    assert_eq!(t(u64::MAX).checked_add(t(1)), None);
    assert!(t(1) < t(2));
}

#[test]
fn parses_blocks_and_renumbers() {
    let text = "7\n00:00:05,000 --> 00:00:06,000\nSecond\n\n\n3\r\n00:00:01,000 --> 00:00:02,500  \r\n  First  \r\nline two\n";
    let f = parse(text);
    assert_eq!(
        summary(&f),
        vec![
            (1000, 2500, lines(&["First", "line two"])),
            (5000, 6000, lines(&["Second"])),
        ]
    );
    assert_eq!(
        f.to_text(),
        "1\n00:00:01,000 --> 00:00:02,500\nFirst\nline two\n\n2\n00:00:05,000 --> 00:00:06,000\nSecond\n\n"
    );
}

#[test]
fn parses_block_without_index() {
    let f = parse("00:00:01,000 --> 00:00:02,000\nHi\n");
    assert_eq!(summary(&f), vec![(1000, 2000, lines(&["Hi"]))]);
}

#[test]
fn sort_is_stable() {
    let f = parse("1\n0:00:05,000 --> 0:00:06,000\nC\n\n2\n0:00:01,000 --> 0:00:02,000\nA\n\n3\n0:00:01,000 --> 0:00:03,000\nB\n");
    assert_eq!(
        summary(&f),
        vec![
            (1000, 2000, lines(&["A"])),
            (1000, 3000, lines(&["B"])),
            (5000, 6000, lines(&["C"])),
        ]
    );
    for w in f.cues.windows(2) {
        assert!(w[0].start <= w[1].start);
    }
}

#[test]
fn malformed_block_in_the_middle_fails() {
    let text = "1\n0:00:01,000 --> 0:00:02,000\nA\n\n2\nnot a time\nB\n\n3\n0:00:03,000 --> 0:00:04,000\nC\n";
    assert_eq!(SubtitleFile::from_text(text).err(), Some(SubError::MalformedCue { position: 2 }));
    let no_text = "1\n0:00:01,000 --> 0:00:02,000\n\n2\n0:00:03,000 --> 0:00:04,000\nC\n";
    assert_eq!(SubtitleFile::from_text(no_text).err(), Some(SubError::MalformedCue { position: 1 }));
    let backwards = "1\n0:00:03,000 --> 0:00:02,000\nA\n\n2\n0:00:03,000 --> 0:00:04,000\nC\n";
    assert_eq!(SubtitleFile::from_text(backwards).err(), Some(SubError::MalformedCue { position: 1 }));
}

#[test]
fn truncated_final_block_is_ignored() {
    let whole = "1\n0:00:01,000 --> 0:00:02,000\nA\n\n2\n0:00:03,000 --> 0:00:04,000\nB\n";
    let truncated = format!("{}\n3\n", whole);
    let a = parse(whole);
    let b = parse(&truncated);
    assert_eq!(summary(&a), summary(&b));
    assert_eq!(b.cues.len(), 2);
}

#[test]
fn empty_text_has_no_cues() {
    assert_eq!(parse("").cues.len(), 0);
    assert_eq!(parse("\n\n  \n").cues.len(), 0);
}

#[test]
fn decodes_utf8_with_bom() {
    let mut bytes = vec![0xEF, 0xBB, 0xBF];
    bytes.extend_from_slice("1\n0:00:01,000 --> 0:00:02,000\nÇa va\n".as_bytes());
    let f = SubtitleFile::from_bytes(&bytes).unwrap();
    assert_eq!(summary(&f), vec![(1000, 2000, lines(&["Ça va"]))]);
}

#[test]
fn decodes_windows_1252() {
    let mut bytes = b"1\n0:00:01,000 --> 0:00:02,000\n".to_vec();
    bytes.extend_from_slice(&[0x93, b'H', b'i', 0x94, b' ', 0xE9, 0x80]);
    let f = SubtitleFile::from_bytes(&bytes).unwrap();
    assert_eq!(f.cues[0].lines, lines(&["\u{201C}Hi\u{201D} \u{e9}\u{20ac}"]));
}

#[test]
fn undecodable_bytes() {
    let bytes = vec![b'1', b'\n', 0x81];
    assert_eq!(SubtitleFile::from_bytes(&bytes).err(), Some(SubError::UndecodableFile));
}

#[test]
fn round_trip_through_text() {
    let f = parse("5\n0:00:01,000 --> 0:00:02,000\nOne\nTwo\n\n9\n1:00:00,000 --> 1:00:01,250\nThree\n");
    let again = parse(&f.to_text());
    assert_eq!(summary(&again), summary(&f));
}

#[test]
fn cleaner_strips_markup_and_whitespace() {
    let f = parse("1\n0:00:01,000 --> 0:00:02,000\n<i>Hello</i>   there\t you\n{\\an8}\n");
    let c = f.clean();
    assert_eq!(summary(&c), vec![(1000, 2000, lines(&["Hello there you"]))]);
}

#[test]
fn cleaner_drops_markup_only_cue() {
    let f = parse("1\n0:00:01,000 --> 0:00:02,000\n<i></i>\n\n2\n0:00:03,000 --> 0:00:04,000\nKept\n");
    let c = f.clean();
    assert_eq!(summary(&c), vec![(3000, 4000, lines(&["Kept"]))]);
}

#[test]
fn cleaner_drops_symbol_only_cue() {
    let f = parse("1\n0:00:01,000 --> 0:00:02,000\n\u{266a} ~ 123 ~\n\n2\n0:00:03,000 --> 0:00:04,000\n- ...\n- Oui\n");
    let c = f.clean();
    assert_eq!(summary(&c), vec![(3000, 4000, lines(&["- ...", "- Oui"]))]);
}

#[test]
fn cleaner_keeps_timing_and_accented_text() {
    let f = parse("1\n0:00:01,000 --> 0:00:02,000\n\u{c9}t\u{e9}\n");
    assert_eq!(summary(&f.clean()), vec![(1000, 2000, lines(&["\u{c9}t\u{e9}"]))]);
}

#[test]
fn cleaning_twice_is_cleaning_once() {
    let f = parse("1\n0:00:01,000 --> 0:00:02,000\n <b>  Hi </b> <<i>x>  \n\n2\n0:00:03,000 --> 0:00:04,000\n{a}  b {c\n\n3\n0:00:05,000 --> 0:00:06,000\n!!!\n");
    let once = f.clean();
    let twice = once.clean();
    assert_eq!(summary(&once), summary(&twice));
    assert_eq!(summary(&once), vec![(1000, 2000, lines(&["Hi x>"])), (3000, 4000, lines(&["b {c"]))]);
}

#[test]
fn combine_overlapping_cues() {
    let foreign = parse("1\n0:00:01,000 --> 0:00:03,000\nBonjour\n");
    let native = parse("1\n0:00:01,500 --> 0:00:04,000\nHello\n");
    let c = combine_files(&foreign, &native);
    let got: Vec<_> = c.cues.iter().map(bi).collect();
    assert_eq!(
        got,
        vec![
            (1000, 1500, lines(&["Bonjour"]), lines(&[])),
            (1500, 3000, lines(&["Bonjour"]), lines(&["Hello"])),
            (3000, 4000, lines(&[]), lines(&["Hello"])),
        ]
    );
}

#[test]
fn combine_with_empty_native() {
    let foreign = parse("1\n0:00:01,000 --> 0:00:02,000\nUn\n\n2\n0:00:03,000 --> 0:00:04,000\nDeux\n");
    let native = SubtitleFile::empty();
    let c = combine_files(&foreign, &native);
    let got: Vec<_> = c.cues.iter().map(bi).collect();
    assert_eq!(
        got,
        vec![
            (1000, 2000, lines(&["Un"]), lines(&[])),
            (3000, 4000, lines(&["Deux"]), lines(&[])),
        ]
    );
}

#[test]
fn combine_joins_touching_pieces_with_same_text() {
    let foreign = parse("1\n0:00:01,000 --> 0:00:05,000\nLong\n");
    let native = parse("1\n0:00:02,000 --> 0:00:03,000\n\n");
    let native2 = SubtitleFile { cues: vec![Cue::new(t(2000), t(3000), lines(&[]))] };
    assert_eq!(native.cues.len(), 0);
    let c = combine_files(&foreign, &native2);
    let got: Vec<_> = c.cues.iter().map(bi).collect();
    assert_eq!(got, vec![(1000, 5000, lines(&["Long"]), lines(&[]))]);
}

#[test]
fn combine_keeps_gaps_and_boundaries() {
    let foreign = parse("1\n0:00:01,000 --> 0:00:02,000\nA\n\n2\n0:00:03,000 --> 0:00:04,000\nA\n");
    let native = parse("1\n0:00:02,000 --> 0:00:02,500\nB\n");
    let c = combine_files(&foreign, &native);
    let got: Vec<_> = c.cues.iter().map(bi).collect();
    assert_eq!(
        got,
        vec![
            (1000, 2000, lines(&["A"]), lines(&[])),
            (2000, 2500, lines(&[]), lines(&["B"])),
            (3000, 4000, lines(&["A"]), lines(&[])),
        ]
    );
    for w in c.cues.windows(2) {
        assert!(w[0].start < w[0].end && w[0].end <= w[1].start);
    }
}

#[test]
fn combine_prefers_later_overlapping_cue() {
    let foreign = SubtitleFile {
        cues: vec![
            Cue::new(t(0), t(10000), lines(&["Long"])),
            Cue::new(t(2000), t(3000), lines(&["Short"])),
        ],
    };
    let native = SubtitleFile { cues: vec![Cue::new(t(20000), t(21000), lines(&["Far"]))] };
    let c = combine_files(&foreign, &native);
    let got: Vec<_> = c.cues.iter().map(bi).collect();
    assert_eq!(
        got,
        vec![
            (0, 2000, lines(&["Long"]), lines(&[])),
            (2000, 3000, lines(&["Short"]), lines(&[])),
            (3000, 10000, lines(&["Long"]), lines(&[])),
            (20000, 21000, lines(&[]), lines(&["Far"])),
        ]
    );
}

#[test]
fn bilingual_text_format() {
    let foreign = parse("1\n0:00:01,000 --> 0:00:03,000\nBonjour\n");
    let native = parse("1\n0:00:01,500 --> 0:00:04,000\nHello\n");
    let text = combine_files(&foreign, &native).to_text();
    assert_eq!(
        text,
        "1\n00:00:01,000 --> 00:00:01,500\nBonjour\n\n2\n00:00:01,500 --> 00:00:03,000\nBonjour\nHello\n\n3\n00:00:03,000 --> 00:00:04,000\nHello\n\n"
    );
}

#[test]
fn clean_and_combine_commands() {
    let f = b"1\n0:00:01,000 --> 0:00:03,000\n<i>Bonjour</i>\n".to_vec();
    let n = b"1\n0:00:01,500 --> 0:00:04,000\nHello\n\n2\n0:00:05,000 --> 0:00:06,000\n***\n".to_vec();
    assert_eq!(cmd_clean(&n).unwrap(), "1\n00:00:01,500 --> 00:00:04,000\nHello\n\n");
    let both = cmd_combine(&f, &n).unwrap();
    assert!(both.starts_with("1\n00:00:01,000 --> 00:00:01,500\nBonjour\n\n"));
    assert_eq!(cmd_combine(&f, &[0x81]).err(), Some(SubError::UndecodableFile));
}

#[test]
fn export_formats() {
    let csv = ExportFormat::Csv {
        video: "v.mkv".to_string(),
        foreign_subs: "es.srt".to_string(),
        native_subs: Some("en.srt".to_string()),
    };
    let tracks = ExportFormat::Tracks { video: "v.mkv".to_string(), foreign_subs: "es.srt".to_string() };
    assert_eq!(csv.name(), "csv");
    assert_eq!(tracks.name(), "tracks");
    assert_eq!(csv.video(), "v.mkv");
    assert_eq!(csv.foreign_subs(), "es.srt");
    assert_eq!(csv.native_subs().map(|s| s.as_str()), Some("en.srt"));
    assert_eq!(tracks.native_subs(), None);

    let f = b"1\n0:00:01,000 --> 0:00:03,000\nHola\n".to_vec();
    let n = b"1\n0:00:01,000 --> 0:00:03,000\nHello\n".to_vec();
    let job = cmd_export(&csv, &f, Some(&n)).unwrap();
    assert_eq!(job.kind, ExportKind::Csv);
    assert_eq!(job.foreign.cues[0].lines, lines(&["Hola"]));
    assert_eq!(job.native.unwrap().cues[0].lines, lines(&["Hello"]));
    let job = cmd_export(&tracks, &f, Some(&n)).unwrap();
    assert_eq!(job.kind, ExportKind::Tracks);
    assert!(job.native.is_none());
    assert_eq!(cmd_export(&csv, &f, Some(&[0x81])).err(), Some(SubError::UndecodableFile));
}

#[test]
fn clean_single_line() {
    assert_eq!(clean_line_text(&"  <font color=\"red\">Qui</font>\t\test  là ? ".to_string()), "Qui est là ?");
    assert_eq!(clean_line_text(&"{\\an8}<i></i>".to_string()), "");
    assert_eq!(clean_line_text(&"a < b".to_string()), "a < b");
    assert_eq!(clean_line_text(&"x <i>y</i> {z".to_string()), "x y {z");
}

#[test]
fn cleaner_drops_credits_cue() {
    let f = parse("1\n00:00:01,000 --> 00:00:02,000\n<i>Subtitles by FanGroup</i>\n");
    assert_eq!(f.clean().cues.len(), 0);
    assert_eq!(cmd_clean(b"1\n00:00:01,000 --> 00:00:02,000\n<i>Subtitles by FanGroup</i>\n").unwrap(), "");
    let g = parse("1\n0:00:01,000 --> 0:00:02,000\nSYNCED BY someone\n\n2\n0:00:03,000 --> 0:00:04,000\nSubtitles are hard\n\n3\n0:00:05,000 --> 0:00:06,000\nSubtitles by me\nand you\n");
    assert_eq!(
        summary(&g.clean()),
        vec![
            (3000, 4000, lines(&["Subtitles are hard"])),
            (5000, 6000, lines(&["Subtitles by me", "and you"])),
        ]
    );
}

#[test]
fn combine_re_emits_when_one_side_is_empty() {
    let foreign = SubtitleFile {
        cues: vec![
            Cue::new(t(1000), t(1000), lines(&["Zero"])),
            Cue::new(t(2000), t(3000), lines(&["Same"])),
            Cue::new(t(3000), t(4000), lines(&["Same"])),
        ],
    };
    let c = combine_files(&foreign, &SubtitleFile::empty());
    let got: Vec<_> = c.cues.iter().map(bi).collect();
    assert_eq!(
        got,
        vec![
            (1000, 1000, lines(&["Zero"]), lines(&[])),
            (2000, 3000, lines(&["Same"]), lines(&[])),
            (3000, 4000, lines(&["Same"]), lines(&[])),
        ]
    );
    let c = combine_files(&SubtitleFile::empty(), &foreign);
    let got: Vec<_> = c.cues.iter().map(bi).collect();
    assert_eq!(got[1], (2000, 3000, lines(&[]), lines(&["Same"])));
    assert_eq!(got.len(), 3);
}

#[test]
fn commands_report_foreign_error_first() {
    let bad_foreign = b"1\n00:60:00,000 --> 00:60:01,000\nA\n\n2\n0:00:03,000 --> 0:00:04,000\nB\n".to_vec();
    let bad_native = vec![0x81];
    let good = b"1\n0:00:01,000 --> 0:00:02,000\nA\n".to_vec();
    assert_eq!(cmd_combine(&bad_foreign, &bad_native).err(), Some(SubError::MalformedCue { position: 1 }));
    assert_eq!(cmd_combine(&good, &bad_native).err(), Some(SubError::UndecodableFile));
    let csv = ExportFormat::Csv {
        video: "v.mkv".to_string(),
        foreign_subs: "es.srt".to_string(),
        native_subs: Some("en.srt".to_string()),
    };
    assert_eq!(cmd_export(&csv, &bad_foreign, Some(&bad_native)).err(), Some(SubError::MalformedCue { position: 1 }));
}

#[test]
fn bad_timing_in_final_block_fails() {
    let text = "1\n0:00:01,000 --> 0:00:02,000\nA\n\n2\n0:00:03,000 --> 0:61:04,000\nB\n";
    assert_eq!(SubtitleFile::from_text(text).err(), Some(SubError::MalformedCue { position: 2 }));
    let cut_short = "1\n0:00:01,000 --> 0:00:02,000\nA\n\n2\n0:00:03,000 --> 0:00:04,000\n";
    assert_eq!(summary(&parse(cut_short)), vec![(1000, 2000, lines(&["A"]))]);
    let garbage = "1\n0:00:01,000 --> 0:00:02,000\nA\n\n\u{1a}\u{1a}\n";
    assert_eq!(summary(&parse(garbage)), vec![(1000, 2000, lines(&["A"]))]);
}
