use bootstrapper::network::client::{add_recipe_message, ClientRequest};
use bootstrapper::network::worker::{
    append_bytes, decode_envs, decode_frame, decode_frame_at, decode_name, encode_archive_message,
    encode_envs, encode_frame, Progress, WorkerStatus,
};
use bootstrapper::recipe::{equiv_hash_of_archive, EquivHash, SourceContents};
use bootstrapper::source::{dep_path, path_join_exec, source_matches, source_path};

fn pair(a: &str, b: &str) -> (String, String) {
    (a.to_string(), b.to_string())
}

#[test]
fn request_bytes() {
    let all = [
        (ClientRequest::AddRecipe, 0u8),
        (ClientRequest::GetStatus, 1),
        (ClientRequest::GetHash, 2),
        (ClientRequest::Goodbye, 3),
    ];
    for (r, b) in all {
        assert_eq!(r.to_u8(), b);
        assert_eq!(ClientRequest::try_from_u8(b), Some(r));
    }
    assert_eq!(ClientRequest::try_from_u8(4), None);
    assert_eq!(ClientRequest::try_from_u8(255), None);
}

#[test]
fn worker_status_bytes() {
    assert_eq!(WorkerStatus::ReadyForWork.to_u8(), 0);
    assert_eq!(WorkerStatus::NeedSource.to_u8(), 4);
    assert_eq!(WorkerStatus::ReadyForEnvs.to_u8(), 10);
    assert_eq!(WorkerStatus::BuildComplete.to_u8(), 11);
    for b in 0u8..12 {
        assert_eq!(WorkerStatus::try_from_u8(b).unwrap().to_u8(), b);
    }
    assert_eq!(WorkerStatus::try_from_u8(12), None);
    assert!(WorkerStatus::ReadyForDep.is_announced_by(5));
    assert!(!WorkerStatus::ReadyForDep.is_announced_by(7));
}

#[test]
fn frames_carry_big_endian_lengths() {
    assert_eq!(encode_frame(2, b"abc"), Some(vec![0, 3, b'a', b'b', b'c']));
    assert_eq!(encode_frame(1, &[]), Some(vec![0]));
    assert_eq!(encode_frame(1, &[7u8; 256]), None);
    let long = vec![1u8; 300];
    let f = encode_frame(2, &long).unwrap();
    assert_eq!(&f[0..2], &[1, 44]);
    let f8 = encode_frame(8, b"xy").unwrap();
    assert_eq!(f8, vec![0, 0, 0, 0, 0, 0, 0, 2, b'x', b'y']);
}

#[test]
fn frames_read_back() {
    let mut buf = encode_frame(2, b"hello").unwrap();
    buf.extend_from_slice(b"tail");
    assert_eq!(decode_frame(2, &buf), Progress::Done(b"hello".to_vec(), 7));
    assert_eq!(decode_frame_at(2, &buf, 10), Progress::NeedMore(1));
    assert_eq!(decode_frame_at(2, &buf, 7), Progress::NeedMore(0x7461 - 2));
    assert_eq!(decode_frame(2, &[0]), Progress::NeedMore(1));
    assert_eq!(decode_frame(2, &[0, 3, b'a']), Progress::NeedMore(2));
    let two = [0u8, 1, b'x', 0, 2, b'y', b'z'];
    assert_eq!(decode_frame_at(2, &two, 3), Progress::Done(b"yz".to_vec(), 4));
}

#[test]
fn names_must_be_utf8() {
    assert_eq!(decode_name(b"gcc".to_vec()), Some("gcc".to_string()));
    assert_eq!(decode_name(vec![0xff]), None);
}

#[test]
fn archive_message_layout() {
    let hash = "a".repeat(64);
    let msg = encode_archive_message(&hash, b"zz");
    assert_eq!(msg.len(), 1 + 64 + 8 + 2);
    assert_eq!(msg[0], 11);
    assert_eq!(&msg[1..65], hash.as_bytes());
    assert_eq!(&msg[65..73], &[0, 0, 0, 0, 0, 0, 0, 2]);
    assert_eq!(&msg[73..], b"zz");
}

#[test]
fn bytes_are_appended() {
    let mut out = vec![1u8, 2];
    append_bytes(&mut out, &[3, 4]);
    assert_eq!(out, vec![1, 2, 3, 4]);
    append_bytes(&mut out, &[]);
    assert_eq!(out, vec![1, 2, 3, 4]);
}

#[test]
fn envs_written_then_read() {
    let envs = vec![pair("CC", "gcc"), pair("EMPTY", ""), pair("Ü", "ß")];
    let bytes = encode_envs(&envs).unwrap();
    assert_eq!(&bytes[0..2], &[0, 3]);
    assert_eq!(&bytes[2..8], &[0, 2, b'C', b'C', 0, 3]);
    let mut with_tail = bytes.clone();
    with_tail.push(9);
    assert_eq!(decode_envs(&with_tail), Progress::Done(envs.clone(), bytes.len()));
    assert_eq!(decode_envs(&bytes[..bytes.len() - 1]), Progress::NeedMore(1));
    assert_eq!(decode_envs(&[0]), Progress::NeedMore(1));
    assert_eq!(decode_envs(&[0, 0]), Progress::Done(Vec::new(), 2));
}

#[test]
fn envs_refuse_bad_text_and_sizes() {
    assert_eq!(decode_envs(&[0, 1, 0, 1, 0xff, 0, 0]), Progress::Invalid);
    let huge = vec![pair(&"k".repeat(70000), "v")];
    assert_eq!(encode_envs(&huge), None);
}

#[test]
fn cache_paths() {
    assert_eq!(source_path("abcdef"), "build-cache/source/ab/cd/abcdef");
    let h = equiv_hash_of_archive(b"x");
    let expected = format!("build-cache/build/{}/{}/{}", &h.0[0..2], &h.0[2..4], h.0);
    assert_eq!(dep_path(&h), expected);
    assert_eq!(dep_path(&EquivHash("1234".to_string())), "build-cache/build/12/34/1234");
}

#[test]
fn paths_join_as_on_unix() {
    assert_eq!(path_join_exec("a".to_string(), "b"), "a/b");
    assert_eq!(path_join_exec("a/".to_string(), "b"), "a/b");
    assert_eq!(path_join_exec(String::new(), "b"), "b");
    assert_eq!(path_join_exec("a".to_string(), "/b"), "/b");
}

#[test]
fn fetched_source_checked_against_digest() {
    let data = b"hello";
    let good = SourceContents {
        url: "u".to_string(),
        sha: "2cf24dba5fb0a30e26e83b2ac5b9e29e1b161e5c1fa7425e73043362938b9824".to_string(),
    };
    assert!(source_matches(&good, data));
    assert!(!source_matches(&good, b"hello!"));
}

#[test]
fn recipe_handed_to_server() {
    let msg = add_recipe_message(b"name: x");
    assert_eq!(msg[0], ClientRequest::AddRecipe.to_u8());
    assert_eq!(&msg[1..9], &[0, 0, 0, 0, 0, 0, 0, 7]);
    assert_eq!(decode_frame(8, &msg[1..]), Progress::Done(b"name: x".to_vec(), 15));
}
