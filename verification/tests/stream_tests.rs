use vibevoice::stream::chunk_backup_name;
use vibevoice::stream::{JsonArrayStream, StreamWrite};

fn apply(file: &mut Option<String>, write: StreamWrite) {
    match write {
        StreamWrite::Nothing => {}
        StreamWrite::Create(tail) => {
            let mut content = "[]".to_string();
            content.pop();
            content.push_str(&tail);
            *file = Some(content);
        }
        StreamWrite::Extend(tail) => {
            let content = file.as_mut().unwrap();
            content.pop();
            content.push_str(&tail);
        }
    }
}

#[test]
fn json_stream_keeps_a_valid_array() {
    let mut stream = JsonArrayStream::new();
    let mut file: Option<String> = None;
    let w = stream.append(&vec![]);
    assert_eq!(w, StreamWrite::Nothing);
    apply(&mut file, w);
    assert_eq!(file, None);
    let w = stream.append(&vec![r#"{"Start":0.0,"End":1.0,"Speaker":0,"Content":"a"}"#.to_string()]);
    assert_eq!(
        w,
        StreamWrite::Create(r#"{"Start":0.0,"End":1.0,"Speaker":0,"Content":"a"}]"#.to_string())
    );
    apply(&mut file, w);
    assert_eq!(file.as_deref(), Some(r#"[{"Start":0.0,"End":1.0,"Speaker":0,"Content":"a"}]"#));
    let w = stream.append(&vec![r#"{"Start":1.0,"End":2.0,"Speaker":0,"Content":"b"}"#.to_string()]);
    apply(&mut file, w);
    assert_eq!(
        file.as_deref(),
        Some(
            r#"[{"Start":0.0,"End":1.0,"Speaker":0,"Content":"a"},{"Start":1.0,"End":2.0,"Speaker":0,"Content":"b"}]"#
        )
    );
}

#[test]
fn json_stream_separates_a_batch_with_commas() {
    let mut stream = JsonArrayStream::new();
    assert_eq!(
        stream.append(&vec!["1".to_string(), "2".to_string()]),
        StreamWrite::Create("1,2]".to_string())
    );
    assert_eq!(stream.append(&vec![]), StreamWrite::Nothing);
    assert_eq!(
        stream.append(&vec!["3".to_string(), "4".to_string()]),
        StreamWrite::Extend(",3,4]".to_string())
    );
}

#[test]
fn chunk_backup_files_sit_beside_the_output() {
    assert_eq!(chunk_backup_name("output.json", 1), "output.chunk_001.json");
    assert_eq!(chunk_backup_name("output.json", 2), "output.chunk_002.json");
    assert_eq!(chunk_backup_name("meeting.v2.json", 12), "meeting.v2.chunk_012.json");
    assert_eq!(chunk_backup_name("out", 1234), "out.chunk_1234.json");
    assert_eq!(chunk_backup_name(".hidden", 5), ".hidden.chunk_005.json");
    assert_eq!(chunk_backup_name("", 0), ".chunk_000.json");
}
