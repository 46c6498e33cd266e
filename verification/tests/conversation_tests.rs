use bootstrapper::network::conversation::{
    build_exchange, decode_completion, dep_exchange, envs_exchange, finish_exchange, overlay_exchange,
    recipe_exchange, source_exchange, Action, ItemKind, ItemReader, ReceivedItem, Step,
    env_map, items_by_name,
};
use bootstrapper::network::worker::{encode_archive_message, Progress, WorkerStatus};

/// Runs the worker's reader against the server's steps: what the reader
/// receives, the bytes it announces, and how the reader ended.
fn converse(kind: ItemKind, server: &[Step]) -> (Vec<ReceivedItem>, Vec<u8>, Vec<u8>, Action) {
    let mut stream: Vec<u8> = Vec::new();
    let mut expected: Vec<u8> = Vec::new();
    for s in server {
        match s {
            Step::Send(b) => stream.extend_from_slice(b),
            Step::Expect(st) => expected.push(st.to_u8()),
        }
    }
    let (mut reader, mut action) = ItemReader::start(kind);
    let mut announced: Vec<u8> = Vec::new();
    let mut pos = 0;
    loop {
        match &action {
            Action::Exchange(send, n) => {
                let n = *n;
                announced.extend_from_slice(send);
                if pos + n > stream.len() {
                    break;
                }
                let input = stream[pos..pos + n].to_vec();
                pos += n;
                action = reader.step(&input);
            }
            _ => break,
        }
    }
    assert_eq!(pos, stream.len());
    (reader.items().clone(), announced, expected, action)
}

#[test]
fn source_exchange_steps() {
    let steps = source_exchange("ab", b"url: x", b"DATA");
    assert_eq!(
        steps,
        vec![
            Step::Expect(WorkerStatus::ReadyForSource),
            Step::Send(vec![0, 2, b'a', b'b']),
            Step::Expect(WorkerStatus::NeedSource),
            Step::Send(vec![0, 0, 0, 6, b'u', b'r', b'l', b':', b' ', b'x']),
            Step::Send(vec![0, 0, 0, 0, 0, 0, 0, 4, b'D', b'A', b'T', b'A']),
        ]
    );
}

#[test]
fn other_exchanges_steps() {
    assert_eq!(
        finish_exchange(ItemKind::Dep),
        vec![Step::Expect(WorkerStatus::ReadyForDep), Step::Send(vec![0, 0])]
    );
    assert_eq!(
        dep_exchange("h", b""),
        vec![
            Step::Expect(WorkerStatus::ReadyForDep),
            Step::Send(vec![0, 1, b'h']),
            Step::Expect(WorkerStatus::NeedDep),
            Step::Send(vec![0; 8]),
        ]
    );
    assert_eq!(
        overlay_exchange(b"p/q", b"z")[2],
        Step::Expect(WorkerStatus::NeedOverlay)
    );
    assert_eq!(
        recipe_exchange(b"r"),
        vec![
            Step::Expect(WorkerStatus::ReadyForWork),
            Step::Send(vec![0]),
            Step::Send(vec![0, 0, 0, 0, 0, 0, 0, 1, b'r']),
        ]
    );
    let envs = envs_exchange(&vec![("A".to_string(), "b".to_string())]);
    assert_eq!(
        envs,
        vec![
            Step::Expect(WorkerStatus::ReadyForEnvs),
            Step::Send(vec![0, 1, 0, 1, b'A', 0, 1, b'b']),
        ]
    );
}

#[test]
fn sources_received_as_sent() {
    let mut server = source_exchange("s1", b"c1", b"first");
    server.extend(source_exchange("s2", b"", b""));
    server.extend(finish_exchange(ItemKind::Source));
    let (items, announced, expected, end) = converse(ItemKind::Source, &server);
    assert_eq!(end, Action::Finish);
    assert_eq!(announced, expected);
    assert_eq!(announced, vec![1, 4, 1, 4, 1]);
    assert_eq!(
        items,
        vec![
            ReceivedItem { name: b"s1".to_vec(), contents: b"c1".to_vec(), data: b"first".to_vec() },
            ReceivedItem { name: b"s2".to_vec(), contents: Vec::new(), data: Vec::new() },
        ]
    );
}

#[test]
fn deps_and_overlays_received_as_sent() {
    let mut server = dep_exchange("d", b"out");
    server.extend(finish_exchange(ItemKind::Dep));
    let (items, announced, expected, end) = converse(ItemKind::Dep, &server);
    assert_eq!((end, announced.clone()), (Action::Finish, expected));
    assert_eq!(announced, vec![5, 7, 5]);
    assert_eq!(items.len(), 1);
    assert_eq!(items[0].data, b"out".to_vec());

    let mut server = overlay_exchange(&[0xff, b'/', b'f'], b"patch");
    server.extend(finish_exchange(ItemKind::Overlay));
    let (items, announced, expected, end) = converse(ItemKind::Overlay, &server);
    assert_eq!((end, announced), (Action::Finish, expected));
    assert_eq!(items[0].name, vec![0xff, b'/', b'f']);

    let (items, _, _, end) = converse(ItemKind::Overlay, &finish_exchange(ItemKind::Overlay));
    assert_eq!((items.len(), end), (0, Action::Finish));
}

#[test]
fn reader_refuses_broken_input() {
    let (mut reader, _) = ItemReader::start(ItemKind::Dep);
    assert_eq!(reader.step(&[0, 1]), Action::Exchange(Vec::new(), 1));
    assert_eq!(reader.step(&[0xff]), Action::Fail);
    assert_eq!(reader.step(&[0, 1]), Action::Fail);

    let (mut reader, _) = ItemReader::start(ItemKind::Source);
    assert_eq!(reader.step(&[0, 1, 2]), Action::Fail);

    let (mut reader, _) = ItemReader::start(ItemKind::Overlay);
    assert_eq!(reader.step(&[0, 0]), Action::Finish);
    assert_eq!(reader.step(&[0, 0]), Action::Fail);
}

#[test]
fn completion_read_back() {
    let hash = "9".repeat(64);
    let mut msg = encode_archive_message(&hash, b"tarball");
    let len = msg.len();
    assert_eq!(len, 73 + 7);
    msg.push(42);
    assert_eq!(decode_completion(&msg), Progress::Done(b"tarball".to_vec(), len));
    assert_eq!(decode_completion(&msg[..10]), Progress::NeedMore(55));
    assert_eq!(decode_completion(&msg[..70]), Progress::NeedMore(3));
    assert_eq!(decode_completion(&[11]), Progress::NeedMore(64));
}

#[test]
fn build_exchange_in_order() {
    let sources = vec![("s".to_string(), b"c".to_vec(), b"src".to_vec())];
    let deps = vec![("d".to_string(), b"dep".to_vec())];
    let overlays = vec![(b"o".to_vec(), b"ov".to_vec())];
    let envs = vec![("K".to_string(), "V".to_string())];
    let plan = build_exchange(b"recipe", &sources, &deps, &overlays, &envs);
    let mut expected = recipe_exchange(b"recipe");
    expected.extend(source_exchange("s", b"c", b"src"));
    expected.extend(finish_exchange(ItemKind::Source));
    expected.extend(dep_exchange("d", b"dep"));
    expected.extend(finish_exchange(ItemKind::Dep));
    expected.extend(overlay_exchange(b"o", b"ov"));
    expected.extend(finish_exchange(ItemKind::Overlay));
    expected.extend(envs_exchange(&envs));
    assert_eq!(plan, expected);
    let empty = build_exchange(b"", &Vec::new(), &Vec::new(), &Vec::new(), &Vec::new());
    assert_eq!(empty.len(), 3 + 2 + 2 + 2 + 2);
}

fn pair(k: &str, v: &str) -> (String, String) {
    (k.to_string(), v.to_string())
}

#[test]
fn environment_in_order_later_entry_wins() {
    let envs = vec![pair("PATH", "/bin"), pair("CC", "gcc"), pair("PATH", "/usr/bin"), pair("AR", "ar")];
    assert_eq!(env_map(&envs), vec![pair("AR", "ar"), pair("CC", "gcc"), pair("PATH", "/usr/bin")]);
    assert_eq!(env_map(&Vec::new()), Vec::new());
    let prefixes = vec![pair("ab", "2"), pair("a", "1"), pair("", "0")];
    assert_eq!(env_map(&prefixes), vec![pair("", "0"), pair("a", "1"), pair("ab", "2")]);
}

fn item(name: &str, data: &[u8]) -> ReceivedItem {
    ReceivedItem { name: name.as_bytes().to_vec(), contents: Vec::new(), data: data.to_vec() }
}

#[test]
fn received_items_one_per_name_later_wins() {
    let items = vec![item("x", b"1"), item("y", b"2"), item("x", b"3")];
    assert_eq!(items_by_name(&items), vec![item("x", b"3"), item("y", b"2")]);
    assert_eq!(items_by_name(&Vec::new()), Vec::new());
}
