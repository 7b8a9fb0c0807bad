use rust_redis::cmd::Command;
use rust_redis::db::Db;
use rust_redis::frame::{serialize_frame, Frame};
use rust_redis::persistence::{replay_log, AofSyncPolicy};
use rust_redis::pubsub::PubSub;

fn req(parts: &[&str]) -> Frame {
    Frame::Array(parts.iter().map(|p| Frame::Bulk(p.as_bytes().to_vec())).collect())
}

#[test]
fn publish_counts_live_subscribers() {
    let mut hub = PubSub::new();
    assert_eq!(hub.publish("news", b"x".to_vec()), 0);
    assert_eq!(hub.num_channels(), 0);
    let mut r1 = hub.subscribe("news".to_string());
    let r2 = hub.subscribe("news".to_string());
    assert_eq!(hub.num_channels(), 1);
    assert_eq!(hub.num_subscribers("news"), 2);
    assert_eq!(hub.publish("news", b"hello".to_vec()), 2);
    assert_eq!(r1.try_recv().unwrap(), b"hello".to_vec());
    drop(r2);
    assert_eq!(hub.publish("news", b"again".to_vec()), 1);
    drop(r1);
    assert_eq!(hub.publish("news", b"lost".to_vec()), 0);
    hub.cleanup_empty_channels();
    assert_eq!(hub.num_channels(), 0);
    assert_eq!(hub.num_subscribers("news"), 0);
}

#[test]
fn publish_command_replies_with_the_count() {
    let mut hub = PubSub::new();
    let _r = hub.subscribe("ch".to_string());
    let mut db = Db::new();
    let c = Command::from_frame(req(&["PUBLISH", "ch", "m"])).unwrap();
    assert_eq!(serialize_frame(&c.execute(&mut db, &hub, 0)), b":1\r\n".to_vec());
}

fn log_of(cmds: &[&[&str]]) -> Vec<u8> {
    let mut log = Vec::new();
    for parts in cmds {
        log.extend_from_slice(&serialize_frame(&req(parts)));
    }
    log
}

#[test]
fn replay_rebuilds_the_store() {
    let cmds: &[&[&str]] = &[
        &["SET", "a", "1"],
        &["RPUSH", "l", "x", "y"],
        &["LPOP", "l"],
        &["SADD", "s", "m", "n"],
        &["SREM", "s", "m"],
        &["HSET", "h", "f", "v"],
        &["DEL", "a"],
        &["SET", "b", "2"],
    ];
    let hub = PubSub::new();
    let mut live = Db::new();
    for parts in cmds {
        Command::from_frame(req(parts)).unwrap().execute(&mut live, &hub, 0);
    }
    let mut restored = Db::new();
    assert_eq!(replay_log(&mut restored, &log_of(cmds), 0), cmds.len());
    assert_eq!(restored.dbsize(), live.dbsize());
    assert_eq!(restored.read_string("b", 0), Some(b"2".to_vec()));
    assert_eq!(restored.read_string("a", 0), None);
    assert_eq!(restored.lrange("l", 0, -1, 0), Some(vec![b"y".to_vec()]));
    assert_eq!(restored.smembers("s", 0), Some(vec!["n".to_string()]));
    assert_eq!(restored.hget("h", "f", 0), Some(b"v".to_vec()));
}

#[test]
fn replay_stops_at_a_torn_tail() {
    let mut log = log_of(&[&["SET", "a", "1"], &["SET", "b", "2"]]);
    log.extend_from_slice(b"*3\r\n$3\r\nSET\r\n$1\r\nc");
    let mut db = Db::new();
    assert_eq!(replay_log(&mut db, &log, 0), 2);
    assert_eq!(db.dbsize(), 2);
    let mut db = Db::new();
    assert_eq!(replay_log(&mut db, b"+OK\r\n!junk", 0), 1);
    assert_eq!(db.dbsize(), 0);
}

#[test]
fn read_only_commands_do_not_replay() {
    let mut db = Db::new();
    db.write_string("k".to_string(), b"v".to_vec(), None);
    let c = Command::from_frame(req(&["GET", "k"])).unwrap();
    assert!(c.replay(&mut db, 0).is_ok());
    assert_eq!(db.dbsize(), 1);
    let c = Command::from_frame(req(&["FLUSHDB"])).unwrap();
    assert!(c.replay(&mut db, 0).is_ok());
    assert_eq!(db.dbsize(), 0);
}

#[test]
fn sync_policies() {
    assert!(AofSyncPolicy::Always.syncs_each_append());
    assert!(!AofSyncPolicy::EverySecond.syncs_each_append());
    assert!(AofSyncPolicy::EverySecond.syncs_every_second());
    assert!(!AofSyncPolicy::No.syncs_every_second());
    assert!(!AofSyncPolicy::No.syncs_each_append());
}

#[test]
fn replay_reads_requests_as_they_were_sent() {
    // simple strings and a signed count, as a client may send them
    let log = b"*3\r\n+SET\r\n+k\r\n$1\r\nv\r\n*+2\r\n+DEL\r\n+x\r\n";
    let mut db = Db::new();
    assert_eq!(replay_log(&mut db, &log[..], 0), 2);
    assert_eq!(db.read_string("k", 0), Some(b"v".to_vec()));
}

#[test]
fn drop_idle_drops_exactly_the_channels_counted_zero() {
    let mut hub = PubSub::new();
    let _a = hub.subscribe("a".to_string());
    let _b = hub.subscribe("b".to_string());
    let _c = hub.subscribe("c".to_string());
    let names = vec!["a".to_string(), "b".to_string(), "zzz".to_string()];
    hub.drop_idle(&names, &vec![0, 3, 0]);
    assert_eq!(hub.num_channels(), 2);
    assert_eq!(hub.num_subscribers("a"), 0);
    assert_eq!(hub.num_subscribers("b"), 1);
    assert_eq!(hub.num_subscribers("c"), 1);
}

#[test]
fn load_frames_reads_frames_until_a_bad_one() {
    let log = b"*1\r\n$5\r\nPI\r\nG\r\n:7\r\n$3\r\na";
    let frames = rust_redis::persistence::load_frames(&log[..]);
    assert_eq!(frames.len(), 2);
    assert_eq!(serialize_frame(&frames[0]), b"*1\r\n$5\r\nPI\r\nG\r\n".to_vec());
    assert_eq!(serialize_frame(&frames[1]), b":7\r\n".to_vec());
}

#[test]
fn srem_counts_distinct_members_removed() {
    let mut db = Db::new();
    db.sadd("s".to_string(), vec!["a".to_string(), "b".to_string(), "c".to_string()], 0);
    assert_eq!(db.srem("s", vec!["a".to_string(), "a".to_string(), "x".to_string()], 0), 1);
    assert_eq!(db.scard("s", 0), 2);
    assert_eq!(db.hdel("s", vec!["b".to_string()], 0), 0);
}
