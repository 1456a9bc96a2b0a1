use lan_remote::proto::ControlMsg;
use lan_remote::sync::{
    apply_remote_clipboard, candidate_name, clipboard_changed, route_sync, sanitize, unique_path,
    FileAction, FileIds, FileReceiver, FileSend, ReadOutcome, SyncRoute, FILE_CHUNK, NAME_TRIES,
};

#[test]
fn sizes() {
    assert_eq!(FILE_CHUNK, 48 * 1024);
    assert_eq!(NAME_TRIES, 10_000);
}

#[test]
fn only_the_last_part_of_a_name_is_kept() {
    assert_eq!(sanitize("report.pdf"), "report.pdf");
    assert_eq!(sanitize("/etc/passwd"), "passwd");
    assert_eq!(sanitize("..\\..\\boot.ini"), "boot.ini");
    assert_eq!(sanitize("a\\b/c d.txt "), "c d.txt");
    assert_eq!(sanitize("x/\u{3000}naïve\t"), "naïve");
}

#[test]
fn names_of_directories_become_file() {
    for name in [".", "..", "../..", "a/.", "a\\..", " .. ", "x/ . "] {
        assert_eq!(sanitize(name), "file");
    }
    assert_eq!(sanitize("..."), "...");
    assert_eq!(sanitize(".a"), ".a");
}

#[test]
fn blank_names_become_file() {
    for name in ["", " ", "dir/", "dir\\ ", "/", "\t\n"] {
        assert_eq!(sanitize(name), "file");
    }
}

#[test]
fn sanitized_names_stay() {
    for name in ["", "a/b", " x ", "..", "file", "\\ \\ y"] {
        let once = sanitize(name);
        assert_eq!(sanitize(&once), once);
        assert!(!once.contains('/') && !once.contains('\\'));
        assert!(!once.is_empty());
    }
}

#[test]
fn numbers_stand_behind_the_stem() {
    assert_eq!(candidate_name("a.txt", 0), "a.txt");
    assert_eq!(candidate_name("a.txt", 1), "a (1).txt");
    assert_eq!(candidate_name("a.tar.gz", 12), "a.tar (12).gz");
    assert_eq!(candidate_name("README", 3), "README (3)");
    assert_eq!(candidate_name(".bashrc", 1), ".bashrc (1)");
    assert_eq!(candidate_name("a.", 1), "a (1).");
    assert_eq!(candidate_name("...", 1), ".. (1).");
    assert_eq!(candidate_name("..", 1), " (1)");
    assert_eq!(candidate_name(".", 1), " (1)");
}

#[test]
fn a_free_name_is_taken_as_it_is() {
    assert_eq!(unique_path("a.txt", |_: &str| false), Some("a.txt".to_string()));
}

#[test]
fn the_first_free_name_is_taken() {
    let taken = ["a.txt", "a (1).txt", "a (3).txt"];
    assert_eq!(
        unique_path("a.txt", |n: &str| taken.contains(&n)),
        Some("a (2).txt".to_string())
    );
}

#[test]
fn when_all_names_are_taken_there_is_none() {
    assert_eq!(unique_path("a", |_: &str| true), None);
    assert_eq!(
        unique_path("a", |n: &str| n != "a (9999)"),
        Some("a (9999)".to_string())
    );
    assert_eq!(unique_path("a", |n: &str| n != "a (10000)"), None);
}

#[test]
fn candidates_are_distinct() {
    let mut names: Vec<String> = (0..200).map(|n| candidate_name("b.c", n)).collect();
    names.sort();
    names.dedup();
    assert_eq!(names.len(), 200);
}

fn start(id: u32, name: &str, size: u64) -> ControlMsg {
    ControlMsg::FileStart { id, name: name.to_string(), size }
}

#[test]
fn a_file_is_received() {
    let mut r = FileReceiver::new();
    assert_eq!(
        r.handle(&start(4, "../x.bin", 5)),
        FileAction::Create { id: 4, name: "x.bin".to_string(), size: 5 }
    );
    r.opened(4, "x.bin".to_string(), 5);
    let chunk = ControlMsg::FileChunk { id: 4, data: vec![1, 2, 3] };
    assert_eq!(r.handle(&chunk), FileAction::Write { id: 4 });
    let chunk = ControlMsg::FileChunk { id: 4, data: vec![4, 5] };
    assert_eq!(r.handle(&chunk), FileAction::Write { id: 4 });
    assert_eq!(
        r.handle(&ControlMsg::FileEnd { id: 4 }),
        FileAction::Close { id: 4, name: "x.bin".to_string(), received: 5, total: 5 }
    );
    assert_eq!(r.handle(&ControlMsg::FileEnd { id: 4 }), FileAction::Nothing);
}

#[test]
fn files_that_could_not_be_created_are_ignored() {
    let mut r = FileReceiver::new();
    r.handle(&start(4, "x", 5));
    assert_eq!(r.handle(&ControlMsg::FileChunk { id: 4, data: vec![1] }), FileAction::Nothing);
    assert_eq!(r.handle(&ControlMsg::FileEnd { id: 4 }), FileAction::Nothing);
}

#[test]
fn other_messages_are_not_about_files() {
    let mut r = FileReceiver::new();
    assert_eq!(r.handle(&ControlMsg::Ping), FileAction::Nothing);
    assert_eq!(r.handle(&ControlMsg::Hello { udp_port: 1 }), FileAction::Nothing);
}

#[test]
fn files_do_not_meddle_with_each_other() {
    let mut r = FileReceiver::new();
    for id in [1, 2] {
        r.handle(&start(id, "f", 9));
        r.opened(id, "f".to_string(), 9);
    }
    r.handle(&ControlMsg::FileChunk { id: 1, data: vec![0; 7] });
    r.handle(&ControlMsg::FileEnd { id: 1 });
    assert_eq!(
        r.handle(&ControlMsg::FileEnd { id: 2 }),
        FileAction::Close { id: 2, name: "f".to_string(), received: 0, total: 9 }
    );
}

#[test]
fn a_file_is_sent_piece_by_piece() {
    let (mut send, first) = FileSend::start(9, Some("n".to_string()), 4);
    assert_eq!(first, start(9, "n", 4));
    assert_eq!(
        send.on_read(ReadOutcome::Data(&[1, 2])),
        Some(ControlMsg::FileChunk { id: 9, data: vec![1, 2] })
    );
    assert_eq!(
        send.on_read(ReadOutcome::Data(&[3, 4])),
        Some(ControlMsg::FileChunk { id: 9, data: vec![3, 4] })
    );
    assert_eq!(send.on_read(ReadOutcome::Data(&[])), Some(ControlMsg::FileEnd { id: 9 }));
    assert_eq!(send.on_read(ReadOutcome::Data(&[5])), None);
}

#[test]
fn a_file_that_cannot_be_read_on_is_ended() {
    let (mut send, first) = FileSend::start(9, None, 4);
    assert_eq!(first, start(9, "file", 4));
    assert_eq!(send.on_read(ReadOutcome::Failed), Some(ControlMsg::FileEnd { id: 9 }));
    assert_eq!(send.on_read(ReadOutcome::Failed), None);
}

#[test]
fn a_file_that_is_sent_is_received() {
    let content: Vec<u8> = (0..100_000u32).map(|i| (i % 249) as u8).collect();
    let mut r = FileReceiver::new();
    let mut file = Vec::new();
    let mut closed = None;
    let (mut send, first) = FileSend::start(1, Some("dir/c.bin".to_string()), 100_000);
    let mut msgs = vec![first];
    for piece in content.chunks(FILE_CHUNK) {
        msgs.extend(send.on_read(ReadOutcome::Data(piece)));
    }
    msgs.extend(send.on_read(ReadOutcome::Data(&[])));
    assert_eq!(msgs.len(), 5);
    for msg in &msgs {
        match r.handle(msg) {
            FileAction::Create { id, name, size } => r.opened(id, name, size),
            FileAction::Write { .. } => match msg {
                ControlMsg::FileChunk { data, .. } => file.extend_from_slice(data),
                _ => unreachable!(),
            },
            FileAction::Close { name, received, total, .. } => {
                closed = Some((name, received, total))
            }
            FileAction::Nothing => unreachable!(),
        }
    }
    assert_eq!(file, content);
    assert_eq!(closed, Some(("c.bin".to_string(), 100_000, 100_000)));
}

#[test]
fn empty_chunks_make_no_difference() {
    let mut r = FileReceiver::new();
    r.handle(&start(4, "x", 3));
    r.opened(4, "x".to_string(), 3);
    for data in [vec![], vec![7, 8, 9], vec![]] {
        let chunk = ControlMsg::FileChunk { id: 4, data };
        assert_eq!(r.handle(&chunk), FileAction::Write { id: 4 });
    }
    assert_eq!(
        r.handle(&ControlMsg::FileEnd { id: 4 }),
        FileAction::Close { id: 4, name: "x".to_string(), received: 3, total: 3 }
    );
}

#[test]
fn files_that_are_sent_at_the_same_time_are_received() {
    let contents = [vec![1u8; 90], (0..70u8).collect::<Vec<u8>>()];
    let mut sent: Vec<Vec<ControlMsg>> = Vec::new();
    for (i, content) in contents.iter().enumerate() {
        let (mut send, first) =
            FileSend::start(i as u32, Some("f".to_string()), content.len() as u64);
        let mut msgs = vec![first];
        for piece in content.chunks(20) {
            msgs.extend(send.on_read(ReadOutcome::Data(piece)));
        }
        msgs.extend(send.on_read(ReadOutcome::Data(&[])));
        sent.push(msgs);
    }
    let mut mixed = Vec::new();
    for k in 0..10 {
        for msgs in &sent {
            mixed.extend(msgs.get(k).cloned());
            mixed.push(ControlMsg::Ping);
        }
    }
    let mut r = FileReceiver::new();
    let mut files = [Vec::new(), Vec::new()];
    let mut closed = Vec::new();
    for msg in &mixed {
        match (r.handle(msg), msg) {
            (FileAction::Create { id, name, size }, _) => r.opened(id, name, size),
            (FileAction::Write { id }, ControlMsg::FileChunk { data, .. }) => {
                files[id as usize].extend_from_slice(data)
            }
            (FileAction::Close { id, received, total, .. }, _) => {
                closed.push((id, received, total))
            }
            (action, _) => assert_eq!(action, FileAction::Nothing),
        }
    }
    assert_eq!(files, contents);
    assert_eq!(closed, vec![(1, 70, 70), (0, 90, 90)]);
}

#[test]
fn file_numbers_begin_with_one_and_do_not_repeat() {
    let mut ids = FileIds::new();
    for expected in 1..1000 {
        assert_eq!(ids.next_file_id(), expected);
    }
}

#[test]
fn a_new_text_is_sent_once() {
    let mut last = String::new();
    let text = Some("copied".to_string());
    assert_eq!(
        clipboard_changed(true, text.clone(), &mut last),
        Some(ControlMsg::Clipboard { text: "copied".to_string() })
    );
    assert_eq!(last, "copied");
    assert_eq!(clipboard_changed(true, text, &mut last), None);
}

#[test]
fn empty_missing_and_unshared_texts_are_not_sent() {
    let mut last = "before".to_string();
    assert_eq!(clipboard_changed(true, Some(String::new()), &mut last), None);
    assert_eq!(clipboard_changed(true, None, &mut last), None);
    assert_eq!(clipboard_changed(false, Some("x".to_string()), &mut last), None);
    assert_eq!(last, "before");
}

#[test]
fn a_text_does_not_come_back() {
    let mut mine = String::new();
    let mut theirs = String::new();
    let sent = clipboard_changed(true, Some("t".to_string()), &mut mine);
    assert_eq!(sent, Some(ControlMsg::Clipboard { text: "t".to_string() }));
    assert_eq!(apply_remote_clipboard("t".to_string(), &mut theirs), Some("t".to_string()));
    assert_eq!(theirs, "t");
    assert_eq!(clipboard_changed(true, Some("t".to_string()), &mut theirs), None);
    assert_eq!(apply_remote_clipboard("t".to_string(), &mut mine), None);
}

#[test]
fn messages_find_their_way() {
    let clip = ControlMsg::Clipboard { text: String::new() };
    assert_eq!(route_sync(&clip, true), SyncRoute::Clipboard);
    assert_eq!(route_sync(&clip, false), SyncRoute::Neither);
    assert_eq!(route_sync(&start(1, "", 0), false), SyncRoute::File);
    assert_eq!(route_sync(&ControlMsg::FileEnd { id: 0 }, false), SyncRoute::File);
    assert_eq!(route_sync(&ControlMsg::Ping, true), SyncRoute::Neither);
}
