use soundblast::tooljson::{parse_transcript, render_transcript};
use soundblast::transcript::{JsonNumber, WhisperResult, WhisperResultSegment, WhisperResultWord};

fn sample_json() -> Vec<u8> {
    let s = "{\"text\":\"hello world\",\"segments\":[{\"id\":0,\"seek\":0,\"start\":0.0,\"end\":2.5,\"text\":\"hello world\",\"tokens\":[50364,1768],\"confidence\":0.98,\"words\":[{\"start\":0.0,\"end\":1.0,\"text\":\"hello\",\"confidence\":0.99},{\"start\":1.2,\"end\":2.5,\"text\":\"world\",\"confidence\":0.97}]}]}";
    s.as_bytes().to_vec()
}

fn num(s: &str) -> JsonNumber {
    JsonNumber { text: s.as_bytes().to_vec() }
}

fn sample_transcript() -> WhisperResult {
    WhisperResult {
        file_id: None,
        text: b"hello world".to_vec(),
        segments: vec![WhisperResultSegment {
            id: 0,
            seek: 0,
            start: num("0.0"),
            end: num("2.5"),
            text: b"hello world".to_vec(),
            tokens: vec![50364, 1768],
            confidence: num("0.98"),
            words: vec![
                WhisperResultWord {
                    start: num("0.0"),
                    end: num("1.0"),
                    text: b"hello".to_vec(),
                    confidence: num("0.99"),
                },
                WhisperResultWord {
                    start: num("1.2"),
                    end: num("2.5"),
                    text: b"world".to_vec(),
                    confidence: num("0.97"),
                },
            ],
        }],
    }
}

#[test]
fn parses_compact_document() {
    let t = parse_transcript(&sample_json()).expect("well-formed document");
    assert_eq!(t.file_id, None);
    assert_eq!(t.text, b"hello world".to_vec());
    assert_eq!(t.segments.len(), 1);
    let g = &t.segments[0];
    assert_eq!(g.id, 0);
    assert_eq!(g.seek, 0);
    assert_eq!(g.start.text, b"0.0".to_vec());
    assert_eq!(g.end.text, b"2.5".to_vec());
    assert_eq!(g.tokens, vec![50364, 1768]);
    assert_eq!(g.confidence.text, b"0.98".to_vec());
    assert_eq!(g.words.len(), 2);
    assert_eq!(g.words[0].text, b"hello".to_vec());
    assert_eq!(g.words[1].start.text, b"1.2".to_vec());
    assert_eq!(g.words[1].confidence.text, b"0.97".to_vec());
}

#[test]
fn parses_document_with_whitespace() {
    let s = "{\n  \"text\": \"hi\",\n  \"segments\": [\n    {\"id\": 3, \"seek\": 10,\n     \"start\": 1.5e1, \"end\": 16.25, \"text\": \"hi\", \"tokens\": [],\n     \"confidence\": 1.0, \"words\": []}\n  ]\n}\n";
    let t = parse_transcript(&s.as_bytes().to_vec()).expect("whitespace is insignificant");
    assert_eq!(t.text, b"hi".to_vec());
    assert_eq!(t.segments[0].id, 3);
    assert_eq!(t.segments[0].seek, 10);
    assert_eq!(t.segments[0].start.text, b"1.5e1".to_vec());
    assert_eq!(t.segments[0].tokens, Vec::<u32>::new());
    assert_eq!(t.segments[0].words.len(), 0);
}

#[test]
fn parses_escapes_in_strings() {
    let s = "{\"text\":\"a\\\"b\\\\c\\nd\",\"segments\":[]}";
    let t = parse_transcript(&s.as_bytes().to_vec()).expect("escapes are understood");
    assert_eq!(t.text, b"a\"b\\c\nd".to_vec());
}

#[test]
fn rejects_unknown_escape() {
    let s = "{\"text\":\"a\\u0041\",\"segments\":[]}";
    assert!(parse_transcript(&s.as_bytes().to_vec()).is_none());
}

#[test]
fn rejects_wrong_key() {
    let s = "{\"text\":\"x\",\"parts\":[]}";
    assert!(parse_transcript(&s.as_bytes().to_vec()).is_none());
}

#[test]
fn rejects_trailing_garbage() {
    let s = "{\"text\":\"x\",\"segments\":[]}tail";
    assert!(parse_transcript(&s.as_bytes().to_vec()).is_none());
}

#[test]
fn rejects_overflowing_segment_index() {
    let s = "{\"text\":\"x\",\"segments\":[{\"id\":4294967296,\"seek\":0,\"start\":0,\"end\":1,\"text\":\"x\",\"tokens\":[],\"confidence\":1,\"words\":[]}]}";
    assert!(parse_transcript(&s.as_bytes().to_vec()).is_none());
}

#[test]
fn accepts_largest_segment_index() {
    let s = "{\"text\":\"x\",\"segments\":[{\"id\":4294967295,\"seek\":0,\"start\":0,\"end\":1,\"text\":\"x\",\"tokens\":[],\"confidence\":1,\"words\":[]}]}";
    let t = parse_transcript(&s.as_bytes().to_vec()).expect("largest index fits");
    assert_eq!(t.segments[0].id, u32::MAX);
}

#[test]
fn prints_expected_bytes() {
    let t = sample_transcript();
    let out = render_transcript(&t);
    assert_eq!(out, sample_json());
}

#[test]
fn parse_then_print_preserves_document() {
    let t = parse_transcript(&sample_json()).expect("well-formed document");
    let out = render_transcript(&t);
    assert_eq!(out, sample_json());
}

#[test]
fn parse_print_round_trip_with_whitespace_input() {
    let pretty = "{ \"text\" : \"hello world\" , \"segments\" : [ { \"id\" : 0 , \"seek\" : 0 , \"start\" : 0.0 , \"end\" : 2.5 , \"text\" : \"hello world\" , \"tokens\" : [ 50364 , 1768 ] , \"confidence\" : 0.98 , \"words\" : [ { \"start\" : 0.0 , \"end\" : 1.0 , \"text\" : \"hello\" , \"confidence\" : 0.99 } , { \"start\" : 1.2 , \"end\" : 2.5 , \"text\" : \"world\" , \"confidence\" : 0.97 } ] } ] }";
    let t = parse_transcript(&pretty.as_bytes().to_vec()).expect("well-formed document");
    let again = parse_transcript(&render_transcript(&t)).expect("printed form parses back");
    assert_eq!(render_transcript(&again), render_transcript(&t));
    assert_eq!(again.text, t.text);
    assert_eq!(again.segments.len(), t.segments.len());
    assert_eq!(again.segments[0].start.text, t.segments[0].start.text);
    assert_eq!(again.segments[0].words[1].end.text, t.segments[0].words[1].end.text);
}

#[test]
fn number_tokens_kept_verbatim() {
    let s = "{\"text\":\"x\",\"segments\":[{\"id\":1,\"seek\":2,\"start\":-0.50,\"end\":1.2e-3,\"text\":\"x\",\"tokens\":[7],\"confidence\":0.9800,\"words\":[]}]}";
    let t = parse_transcript(&s.as_bytes().to_vec()).expect("well-formed document");
    assert_eq!(t.segments[0].start.text, b"-0.50".to_vec());
    assert_eq!(t.segments[0].end.text, b"1.2e-3".to_vec());
    assert_eq!(t.segments[0].confidence.text, b"0.9800".to_vec());
    let out = render_transcript(&t);
    let printed = String::from_utf8(out).unwrap();
    assert!(printed.contains("-0.50"));
    assert!(printed.contains("1.2e-3"));
    assert!(printed.contains("0.9800"));
}

#[test]
fn with_file_id_binds_identifier_only() {
    let t = sample_transcript();
    let before = render_transcript(&t);
    let bound = t.with_file_id("0123456789abcdef01234567".to_string());
    assert_eq!(bound.file_id.as_deref(), Some("0123456789abcdef01234567"));
    assert_eq!(render_transcript(&bound), before);
}

#[test]
fn parses_members_in_any_order() {
    let sdoc = "{\"segments\":[{\"words\":[{\"text\":\"hi\",\"start\":0.1,\"confidence\":0.9,\"end\":0.5}],\"confidence\":0.9,\"tokens\":[7],\"text\":\"hi\",\"end\":0.5,\"start\":0.1,\"seek\":0,\"id\":0}],\"text\":\"hi\"}";
    let t = parse_transcript(&sdoc.as_bytes().to_vec()).expect("member order is free");
    assert_eq!(t.text, b"hi".to_vec());
    assert_eq!(t.segments[0].id, 0);
    assert_eq!(t.segments[0].start.text, b"0.1".to_vec());
    assert_eq!(t.segments[0].words[0].text, b"hi".to_vec());
    assert_eq!(t.segments[0].words[0].end.text, b"0.5".to_vec());
}

#[test]
fn skips_unknown_members_everywhere() {
    let sdoc = concat_str();
    let t = parse_transcript(&sdoc.as_bytes().to_vec()).expect("unknown members are skipped");
    assert_eq!(t.text, b"hello".to_vec());
    assert_eq!(t.segments.len(), 1);
    assert_eq!(t.segments[0].id, 0);
    assert_eq!(t.segments[0].confidence.text, b"0.98".to_vec());
    assert_eq!(t.segments[0].words[0].text, b"hello".to_vec());
}

fn concat_str() -> &'static str {
    "{\"text\":\"hello\",\"language\":\"en\",\"segments\":[{\"id\":0,\"seek\":0,\"start\":0.0,\"end\":2.5,\"text\":\"hello\",\"tokens\":[50364],\"temperature\":0.0,\"avg_logprob\":-0.25,\"compression_ratio\":1.2,\"no_speech_prob\":0.01,\"confidence\":0.98,\"words\":[{\"text\":\"hello\",\"start\":0.0,\"end\":1.0,\"confidence\":0.99}]}]}"
}

#[test]
fn skips_nested_unknown_values() {
    let sdoc = "{\"meta\":{\"a\":[1,2,{\"b\":null}],\"c\":true,\"d\":false},\"text\":\"x\",\"segments\":[]}";
    let t = parse_transcript(&sdoc.as_bytes().to_vec()).expect("nested unknown values are skipped");
    assert_eq!(t.text, b"x".to_vec());
    assert!(t.segments.is_empty());
}

#[test]
fn rejects_duplicate_member() {
    let sdoc = "{\"text\":\"x\",\"text\":\"y\",\"segments\":[]}";
    assert!(parse_transcript(&sdoc.as_bytes().to_vec()).is_none());
}

#[test]
fn rejects_missing_required_member() {
    let sdoc = "{\"text\":\"x\"}";
    assert!(parse_transcript(&sdoc.as_bytes().to_vec()).is_none());
}

#[test]
fn reordered_document_prints_canonically() {
    let sdoc = "{\"segments\":[],\"text\":\"ab\"}";
    let t = parse_transcript(&sdoc.as_bytes().to_vec()).expect("member order is free");
    assert_eq!(render_transcript(&t), b"{\"text\":\"ab\",\"segments\":[]}".to_vec());
}
