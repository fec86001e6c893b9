use blastcap::dataset::{content_hash, insert_entry, keep_path, load_entry};
use blastcap::identity::BOT_ADDR;
use blastcap::logging::{contains_str, lines_of, log_line, log_write, nth_word, panic_report, utf8_len_of};
use blastcap::map::{Piece, VoxelMap};
use blastcap::mapgen::{floor_boxes, generate_map};
use blastcap::math::Vec3;
use blastcap::messages::{ClientRequest, HostPoll, ServerMessage};
use blastcap::network::{
    client_step, frame, frame_accepted, frame_len, handle_listen, missing_client_message,
    stream_route, ClientAction, ClientEvent, ClientTable, ListenEvent, Route,
};
use blastcap::random::Random;
use blastcap::sparse::SparseMap;

#[test]
fn log_lines_are_sorted_by_level() {
    let warn = log_line("\x1b[2m2024-01-01T00:00:00Z\x1b[0m \x1b[33m WARN\x1b[0m blastcap: careful\n");
    assert_eq!(warn.text, "\u{1f980} 2024-01-01T00:00:00Z  WARN blastcap: careful");
    assert!(warn.to_error);
    let info = log_line("2024-01-01T00:00:00Z  INFO blastcap: fine");
    assert_eq!(info.text, "\u{1f980} 2024-01-01T00:00:00Z  INFO blastcap: fine");
    assert!(!info.to_error);
    assert!(log_line("t DEBUG x").to_error);
    assert!(log_line("t ERROR").to_error);
    assert!(!log_line("short").to_error);
}

#[test]
fn log_write_reports_the_text_length() {
    let (line, n) = log_write("t  ERROR  boom  ".as_bytes());
    let line = line.unwrap();
    assert_eq!(line.text, "\u{1f980} t  ERROR  boom");
    assert!(line.to_error);
    assert_eq!(n, 16);
    // control characters other than newlines do not survive the stripping
    let (line, n) = log_write(b"a\0b");
    assert_eq!(line.unwrap().text, "\u{1f980} ab");
    assert_eq!(n, 3);
}

#[test]
fn words_and_lines() {
    assert_eq!(nth_word("  a bb\tccc ", 0), Some("a"));
    assert_eq!(nth_word("  a bb\tccc ", 2), Some("ccc"));
    assert_eq!(nth_word("  a bb\tccc ", 3), None);
    assert_eq!(nth_word("", 0), None);
    assert_eq!(lines_of("a\r\nb\n"), vec!["a".to_string(), "b".to_string()]);
    assert_eq!(lines_of("a\r"), vec!["a\r".to_string()]);
    assert_eq!(lines_of("x\n\ny"), vec!["x".to_string(), "".to_string(), "y".to_string()]);
    assert!(lines_of("").is_empty());
    assert!(contains_str("abc Stack backtrace: x", "Stack backtrace:"));
    assert!(!contains_str("abc", "abcd"));
    assert!(contains_str("abc", ""));
    assert_eq!(utf8_len_of("a\u{e9}\u{20ac}\u{1f980}"), Some(10));
}

const NOTE: &str = "\nnote: run with `RUST_BACKTRACE=1` environment variable to display a backtrace";

#[test]
fn panic_reports() {
    let r = panic_report(Some("main"), "ThreadId(1)", Some(("src/a.rs", 3, 5)), Some("boom"));
    assert_eq!(
        r,
        format!("========\nthread 'main'(id: ThreadId(1)) panicked\ncrashed at src/a.rs:3:5:\n    boom{NOTE}")
    );
    let r = panic_report(None, "ThreadId(2)", None, None);
    assert_eq!(
        r,
        format!("=================\nthread '<unnamed>'(id: ThreadId(2)) panicked\ncrashed at unknown location:\n    unknown error{NOTE}")
    );
    let r = panic_report(Some("w"), "ThreadId(3)", None, Some("oops\nStack backtrace:\n  0: f"));
    assert_eq!(
        r,
        "====================\nthread 'w'(id: ThreadId(3)) panicked\ncrashed at unknown location:\n    oops\n    Stack backtrace:\n      0: f"
    );
    let long = "x".repeat(100);
    let r = panic_report(Some("w"), "I", None, Some(&long));
    assert!(r.starts_with(&format!("{}\n", "=".repeat(60))));
}

#[test]
fn client_table_bookkeeping() {
    let mut t = ClientTable::new(0);
    assert!(matches!(t.first_poll(), Some(HostPoll::ClientConnected(0))));
    assert!(t.first_poll().is_none());
    let a = 0x7f00_0001_1f90_0000u64;
    let b = 0x0a00_0002_0050_0000u64;
    assert!(matches!(t.connected(a), HostPoll::ClientConnected(x) if x == a));
    assert!(matches!(t.connected(b), HostPoll::ClientConnected(x) if x == b));
    t.connected(a);
    assert_eq!(t.get_clients(), vec![a, b, 0]);
    assert_eq!(t.get_client_count(), 3);
    assert!(matches!(t.route(0), Route::Own));
    assert!(matches!(t.route(a), Route::Client(x) if x == a));
    assert!(matches!(t.route(5), Route::Missing));
    assert!(matches!(t.disconnected(a), HostPoll::RemoveClient(x) if x == a));
    assert_eq!(t.get_clients(), vec![b, 0]);
    assert!(!t.knows(a));
}

#[test]
fn stream_routes_drop_the_low_bytes() {
    let mut t = ClientTable::new(0);
    let a = 0x7f00_0001_1f90_0000u64;
    t.connected(a);
    assert!(matches!(stream_route(&t, a + 0x1234), Route::Client(x) if x == a));
    assert!(matches!(stream_route(&t, 5), Route::Own));
    assert!(matches!(stream_route(&t, BOT_ADDR), Route::Missing));
    assert_eq!(missing_client_message(a), "SERVER - client 127.0.0.1:8080 does not exist");
    assert_eq!(missing_client_message(BOT_ADDR), "SERVER - client 0.0.0.0:1 does not exist");
}

#[test]
fn listen_events() {
    let mut t = ClientTable::new(77);
    assert!(matches!(handle_listen(&mut t, ListenEvent::Connecting), Ok(HostPoll::Nothing)));
    assert!(matches!(handle_listen(&mut t, ListenEvent::Connected(Some(9))), Ok(HostPoll::ClientConnected(9))));
    assert!(handle_listen(&mut t, ListenEvent::Connected(None)).is_err());
    assert_eq!(t.get_clients(), vec![9, 77]);
    assert!(matches!(handle_listen(&mut t, ListenEvent::Disconnected(Some(9))), Ok(HostPoll::RemoveClient(9))));
    assert!(handle_listen(&mut t, ListenEvent::Disconnected(None)).is_err());
    assert_eq!(t.get_clients(), vec![77]);
}

#[test]
fn frames() {
    assert_eq!(frame(&[1, 2, 3]), vec![0, 0, 0, 3, 1, 2, 3]);
    assert_eq!(frame(&[]), vec![0, 0, 0, 0]);
    let big = vec![7u8; 300];
    let f = frame(&big);
    assert_eq!(&f[..4], &[0, 0, 1, 44]);
    assert_eq!(frame_len([0, 0, 1, 44]), 300);
    assert_eq!(frame_len([1, 0, 0, 0]), 0x100_0000);
    assert!(frame_accepted(10000));
    assert!(!frame_accepted(10001));
}

#[test]
fn client_loop_steps() {
    assert!(matches!(client_step(3, ClientEvent::Tick), (4, ClientAction::Count)));
    assert!(matches!(client_step(usize::MAX, ClientEvent::Tick), (0, ClientAction::Count)));
    assert!(matches!(client_step(3, ClientEvent::Message(ServerMessage::Pong)), (3, ClientAction::Deliver(ServerMessage::Pong))));
    assert!(matches!(client_step(3, ClientEvent::Request(ClientRequest::EndTurn)), (3, ClientAction::Send(ClientRequest::EndTurn))));
}

#[test]
fn data_directory_filing() {
    assert!(keep_path(false, Some("toml")));
    assert!(!keep_path(false, Some("txt")));
    assert!(keep_path(false, None));
    assert!(!keep_path(true, Some("toml")));
    assert_eq!(content_hash("name = \"x\""), content_hash("name = \"x\""));
    let mut entries: Vec<(u64, &str)> = Vec::new();
    assert!(insert_entry(&mut entries, 5, "a").is_ok());
    let e = insert_entry(&mut entries, 5, "b").unwrap_err();
    assert_eq!(e.key, 5);
    assert_eq!(entries, vec![(5, "a")]);
    let k = load_entry(&mut entries, "text", "c").unwrap();
    assert_eq!(k, content_hash("text"));
    assert!(load_entry(&mut entries, "text", "d").is_err());
    assert_eq!(entries.len(), 2);
}

static SMALL_POOL: [u8; 3] = [1, 2, 3];

#[test]
fn random_coin_is_a_byte_parity() {
    let mut r = Random::with_pool(0x0001_0002_0000_0005, &SMALL_POOL);
    assert!(r.bool());
    assert!(!r.bool());
}

#[test]
fn seeded_floors() {
    let size = Vec3::new(80, 40, 80);
    let a = generate_map(42, size);
    let b = generate_map(42, size);
    assert_eq!(a.len(), b.len());
    assert!(a.len() >= 16);
    for ((p, piece), (q, _)) in a.iter().zip(b.iter()) {
        assert_eq!(p, q);
        assert!(matches!(piece, Piece::Ground));
        assert_eq!(p.y, 0);
        assert!(0 <= p.x && p.x < 80 && 0 <= p.z && p.z < 80);
    }
    let mut r = Random::new(7);
    let boxes = floor_boxes(&mut r, 6, size);
    assert!(!boxes.is_empty() && boxes.len() <= 6);
    for (i, x) in boxes.iter().enumerate() {
        assert!(x.x1 + 4 <= x.x2 && x.x2 <= 80 && x.z1 + 4 <= x.z2 && x.z2 <= 80);
        for y in boxes.iter().skip(i + 1) {
            assert!(!x.intersect(*y));
        }
    }
}

#[test]
fn sparse_map_reads_back_writes() {

    let mut m = SparseMap::new();
    let p = Vec3::new(1, 2, 3);
    let q = Vec3::new(-4, 0, 9);
    assert!(m.get(p).is_none());
    m.set(p, Piece::Ground);
    m.set(q, Piece::Actor(4));
    assert!(matches!(m.get(p), Some(Piece::Ground)));
    m.set(p, Piece::Empty);
    assert!(matches!(m.get(p), Some(Piece::Empty)));
    let mut pos = m.get_map_positions();
    pos.sort();
    assert_eq!(pos, {
        let mut v = vec![p, q];
        v.sort();
        v
    });
    assert!(matches!(m.remove(q), Some(Piece::Actor(4))));
    assert!(m.remove(q).is_none());
    assert!(m.get(q).is_none());
    m.dead_set(q, 7);
    assert_eq!(m.dead_get(q), Some(7));
    assert_eq!(m.dead_get(p), None);
}

#[test]
fn voxel_map_reads_back_writes() {

    let mut m = VoxelMap::new(Vec3::new(4, 3, 5));
    let p = Vec3::new(3, 2, 4);
    assert!(matches!(m.get(p), Some(Piece::Empty)));
    m.set(p, Piece::Ground);
    assert!(matches!(m.get(p), Some(Piece::Ground)));
    assert!(matches!(m.get(Vec3::new(0, 0, 0)), Some(Piece::Empty)));
    m.set(Vec3::new(4, 0, 0), Piece::Ground);
    assert!(m.get(Vec3::new(4, 0, 0)).is_none());
    assert!(m.get(Vec3::new(-1, 0, 0)).is_none());
    m.dead_set(p, Some(3));
    assert_eq!(m.dead_get(p), Some(3));
    m.dead_set(p, None);
    assert_eq!(m.dead_get(p), None);
    let (xs, ys, zs) = m.get_ground_data();
    assert_eq!((xs, ys, zs), (vec![3], vec![2], vec![4]));
}

#[test]
fn connecting_and_leaving_undo_each_other() {
    let mut t = ClientTable::new(0);
    let b = 0x0a00_0002_0050_0000u64;
    t.connected(b);
    let before = t.get_clients();
    let a = 0x7f00_0001_1f90_0000u64;
    t.connected(a);
    t.disconnected(a);
    assert_eq!(t.get_clients(), before);
}
