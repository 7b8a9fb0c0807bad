//! The append-only log: which commands it keeps, how often it is synced, and
//! how a log is replayed into a keyspace at startup.
use crate::cmd::{apply, is_write, parse_request, Command, CommandModel};
use crate::db::{store_model, Db, EntryModel};
use crate::frame::{
    encodable, encode, lemma_models_index, lemma_parse_local, lemma_round_trip, models, parse_at,
    parse_frame, Cursor, Frame, FrameModel, ParseModel, MAX_DEPTH,
};
use vstd::prelude::*;

verus! {

/// When the log file is synced to disk.
#[derive(Clone, Copy, Debug, PartialEq, Eq, Structural)]
pub enum AofSyncPolicy {
    /// After every appended frame.
    Always,
    /// Once a second, from a background task.
    EverySecond,
    /// Never explicitly; the operating system decides.
    No,
}

impl AofSyncPolicy {
    /// Whether each append is followed by a sync.
    pub fn syncs_each_append(&self) -> (r: bool)
        ensures
            r == (*self == AofSyncPolicy::Always),
    {
        *self == AofSyncPolicy::Always
    }

    /// Whether a background task syncs once a second.
    pub fn syncs_every_second(&self) -> (r: bool)
        ensures
            r == (*self == AofSyncPolicy::EverySecond),
    {
        *self == AofSyncPolicy::EverySecond
    }
}

/// The store after a logged frame runs: its command when it names one that
/// changes the keyspace, nothing otherwise.
pub open spec fn after_frame(s: Map<Seq<char>, EntryModel>, f: FrameModel, now: u64) -> Map<
    Seq<char>,
    EntryModel,
> {
    match parse_request(f) {
        Ok(c) => if is_write(c) {
            apply(c, s, now)
        } else {
            s
        },
        Err(_) => s,
    }
}

/// The store after replaying the log `b` from position `p`: frame after frame,
/// up to the end or to the first bytes that are not a whole frame.
pub open spec fn replayed(s: Map<Seq<char>, EntryModel>, b: Seq<u8>, p: int, now: u64) -> Map<
    Seq<char>,
    EntryModel,
>
    decreases b.len() - p,
{
    if p < 0 || p >= b.len() {
        s
    } else {
        match parse_at(b, p, MAX_DEPTH as nat) {
            ParseModel::Done(f, e) => if e <= p || e > b.len() {
                s
            } else {
                replayed(after_frame(s, f, now), b, e, now)
            },
            _ => s,
        }
    }
}

/// The frames of the log `b` from position `p`: one after another, up to the
/// end or to the first bytes that are not a whole frame.
pub open spec fn log_frames(b: Seq<u8>, p: int) -> Seq<FrameModel>
    decreases b.len() - p,
{
    if p < 0 || p >= b.len() {
        seq![]
    } else {
        match parse_at(b, p, MAX_DEPTH as nat) {
            ParseModel::Done(f, e) => if e <= p || e > b.len() {
                seq![]
            } else {
                seq![f] + log_frames(b, e)
            },
            _ => seq![],
        }
    }
}

/// The frames that the log `log` holds, as `replay_log` reads them.
pub fn load_frames(log: &[u8]) -> (r: Vec<Frame>)
    ensures
        models(r@) == log_frames(log@, 0),
{
    let mut cursor = Cursor { buf: log, pos: 0 };
    let mut out: Vec<Frame> = Vec::new();
    proof {
        lemma_models_index(out@, 0);
        assert(models(out@) + log_frames(log@, 0) =~= log_frames(log@, 0));
    }
    while cursor.pos < log.len()
        invariant
            cursor.buf == log,
            cursor.pos <= log@.len(),
            models(out@) + log_frames(log@, cursor.pos as int) == log_frames(log@, 0),
        decreases log@.len() - cursor.pos,
    {
        let start = cursor.pos;
        let frame = match parse_frame(&mut cursor, MAX_DEPTH) {
            Ok(f) => f,
            Err(_) => {
                assert(models(out@) =~= models(out@) + log_frames(log@, start as int));
                return out;
            },
        };
        if cursor.pos <= start {
            assert(models(out@) =~= models(out@) + log_frames(log@, start as int));
            return out;
        }
        let ghost prev = out@;
        let ghost fm = frame@;
        out.push(frame);
        proof {
            assert(out@.drop_last() =~= prev);
            assert(models(out@) == models(prev).push(fm));
            assert(models(prev) + (seq![fm] + log_frames(log@, cursor.pos as int)) =~= models(out@)
                + log_frames(log@, cursor.pos as int));
        }
    }
    assert(models(out@) + log_frames(log@, cursor.pos as int) =~= models(out@));
    out
}

/// Replays the log `log` into `db` at time `now` and hands back how many
/// frames it read. Replay stops at the first bytes that are not a whole frame:
/// a torn write at the tail.
pub fn replay_log(db: &mut Db, log: &[u8], now: u64) -> (r: usize)
    requires
        old(db).wf(),
    ensures
        final(db).wf(),
        store_model(final(db)@) == replayed(store_model(old(db)@), log@, 0, now),
        r == log_frames(log@, 0).len(),
{
    let mut cursor = Cursor { buf: log, pos: 0 };
    let mut count: usize = 0;
    while cursor.pos < log.len()
        invariant
            db.wf(),
            cursor.buf == log,
            cursor.pos <= log@.len(),
            count <= cursor.pos,
            count + log_frames(log@, cursor.pos as int).len() == log_frames(log@, 0).len(),
            replayed(store_model(old(db)@), log@, 0, now) == replayed(
                store_model(db@),
                log@,
                cursor.pos as int,
                now,
            ),
        decreases log@.len() - cursor.pos,
    {
        let start = cursor.pos;
        let frame = match parse_frame(&mut cursor, MAX_DEPTH) {
            Ok(f) => f,
            Err(_) => return count,
        };
        if cursor.pos <= start {
            return count;
        }
        let ghost fm = frame@;
        let ghost before = store_model(db@);
        match Command::from_frame(frame) {
            Ok(c) => {
                let _ = c.replay(db, now);
            },
            Err(_) => {},
        }
        assert(store_model(db@) == after_frame(before, fm, now));
        count = count + 1;
    }
    count
}

/// The logged byte strings one after another, as the log file holds them.
pub open spec fn concat_all(rs: Seq<Seq<u8>>) -> Seq<u8>
    decreases rs.len(),
{
    if rs.len() == 0 {
        seq![]
    } else {
        rs[0] + concat_all(rs.subrange(1, rs.len() as int))
    }
}

/// `r` is exactly the bytes of one request whose command changes the keyspace.
pub open spec fn logged_request(r: Seq<u8>) -> bool {
    &&& parse_at(r, 0, MAX_DEPTH as nat) is Done
    &&& parse_at(r, 0, MAX_DEPTH as nat)->Done_1 == r.len()
    &&& parse_request(parse_at(r, 0, MAX_DEPTH as nat)->Done_0) is Ok
    &&& is_write(parse_request(parse_at(r, 0, MAX_DEPTH as nat)->Done_0)->Ok_0)
}

/// The frames that the logged byte strings hold.
pub open spec fn frames_of(rs: Seq<Seq<u8>>) -> Seq<FrameModel> {
    Seq::new(rs.len(), |i: int| parse_at(rs[i], 0, MAX_DEPTH as nat)->Done_0)
}

/// The store after the commands of `fs` run one after another.
pub open spec fn run_frames(s: Map<Seq<char>, EntryModel>, fs: Seq<FrameModel>, now: u64) -> Map<
    Seq<char>,
    EntryModel,
>
    decreases fs.len(),
{
    if fs.len() == 0 {
        s
    } else {
        run_frames(
            apply(parse_request(fs[0])->Ok_0, s, now),
            fs.subrange(1, fs.len() as int),
            now,
        )
    }
}

proof fn lemma_replay_suffix(
    s: Map<Seq<char>, EntryModel>,
    pre: Seq<u8>,
    rs: Seq<Seq<u8>>,
    now: u64,
)
    requires
        forall|i: int| 0 <= i < rs.len() ==> logged_request(#[trigger] rs[i]),
    ensures
        replayed(s, pre + concat_all(rs), pre.len() as int, now) == run_frames(s, frames_of(rs), now),
    decreases rs.len(),
{
    let b = pre + concat_all(rs);
    if rs.len() == 0 {
        assert(b.len() == pre.len());
    } else {
        let r = rs[0];
        let rest = rs.subrange(1, rs.len() as int);
        assert(logged_request(r));
        assert(b =~= (pre + r) + concat_all(rest));
        assert(b.subrange(pre.len() as int, (pre.len() + r.len()) as int) =~= r);
        lemma_parse_local(r, b, pre.len() as int, 0, MAX_DEPTH as nat);
        assert(frames_of(rs).subrange(1, rs.len() as int) =~= frames_of(rest));
        assert forall|i: int| 0 <= i < rest.len() implies logged_request(#[trigger] rest[i]) by {
            assert(rest[i] == rs[i + 1]);
        }
        let f = parse_at(r, 0, MAX_DEPTH as nat)->Done_0;
        lemma_replay_suffix(apply(parse_request(f)->Ok_0, s, now), pre + r, rest, now);
    }
}

/// Replaying a log of requests that change the keyspace, byte for byte as
/// they came, leaves the store that running those requests left, when both
/// run at the same time `now`.
pub proof fn lemma_replay_equivalence(s: Map<Seq<char>, EntryModel>, rs: Seq<Seq<u8>>, now: u64)
    requires
        forall|i: int| 0 <= i < rs.len() ==> logged_request(#[trigger] rs[i]),
    ensures
        replayed(s, concat_all(rs), 0, now) == run_frames(s, frames_of(rs), now),
{
    lemma_replay_suffix(s, seq![], rs, now);
    assert(seq![] + concat_all(rs) =~= concat_all(rs));
}

/// `r` is exactly the bytes of one frame.
pub open spec fn whole_frame(r: Seq<u8>) -> bool {
    parse_at(r, 0, MAX_DEPTH as nat) is Done && parse_at(r, 0, MAX_DEPTH as nat)->Done_1 == r.len()
}

proof fn lemma_load_suffix(pre: Seq<u8>, rs: Seq<Seq<u8>>)
    requires
        forall|i: int| 0 <= i < rs.len() ==> whole_frame(#[trigger] rs[i]),
    ensures
        log_frames(pre + concat_all(rs), pre.len() as int) == frames_of(rs),
    decreases rs.len(),
{
    let b = pre + concat_all(rs);
    if rs.len() == 0 {
        assert(frames_of(rs) =~= seq![]);
    } else {
        let r = rs[0];
        let rest = rs.subrange(1, rs.len() as int);
        assert(whole_frame(r));
        assert(b =~= (pre + r) + concat_all(rest));
        assert(b.subrange(pre.len() as int, (pre.len() + r.len()) as int) =~= r);
        lemma_parse_local(r, b, pre.len() as int, 0, MAX_DEPTH as nat);
        assert forall|i: int| 0 <= i < rest.len() implies whole_frame(#[trigger] rest[i]) by {
            assert(rest[i] == rs[i + 1]);
        }
        lemma_load_suffix(pre + r, rest);
        assert(frames_of(rs) =~= seq![frames_of(rs)[0]] + frames_of(rest));
    }
}

/// A log that holds whole frames one after another loads as exactly those
/// frames, in order.
pub proof fn lemma_load_whole_frames(rs: Seq<Seq<u8>>)
    requires
        forall|i: int| 0 <= i < rs.len() ==> whole_frame(#[trigger] rs[i]),
    ensures
        log_frames(concat_all(rs), 0) == frames_of(rs),
{
    lemma_load_suffix(seq![], rs);
    assert(seq![] + concat_all(rs) =~= concat_all(rs));
}

/// The wire bytes of each frame of `fs`.
pub open spec fn encodings(fs: Seq<FrameModel>) -> Seq<Seq<u8>> {
    Seq::new(fs.len(), |i: int| encode(fs[i]))
}

/// A log written as the encodings of frames the codec can carry loads as
/// exactly those frames, in order.
pub proof fn lemma_load_encoded(fs: Seq<FrameModel>)
    requires
        forall|i: int| 0 <= i < fs.len() ==> encodable(#[trigger] fs[i], MAX_DEPTH as nat),
    ensures
        log_frames(concat_all(encodings(fs)), 0) == fs,
{
    let rs = encodings(fs);
    assert forall|i: int| 0 <= i < rs.len() implies whole_frame(#[trigger] rs[i]) by {
        lemma_round_trip(fs[i]);
    }
    lemma_load_whole_frames(rs);
    assert forall|i: int| 0 <= i < fs.len() implies frames_of(rs)[i] == fs[i] by {
        lemma_round_trip(fs[i]);
    }
    assert(frames_of(rs) =~= fs);
}

/// The store after the commands `cs` run one after another at `now`, as
/// `Command::execute` runs them.
pub open spec fn run_commands(s: Map<Seq<char>, EntryModel>, cs: Seq<CommandModel>, now: u64) -> Map<
    Seq<char>,
    EntryModel,
>
    decreases cs.len(),
{
    if cs.len() == 0 {
        s
    } else {
        run_commands(apply(cs[0], s, now), cs.subrange(1, cs.len() as int), now)
    }
}

/// The store after the commands `cs` are replayed one after another at `now`,
/// as `Command::replay` replays them.
pub open spec fn replay_commands(s: Map<Seq<char>, EntryModel>, cs: Seq<CommandModel>, now: u64) -> Map<
    Seq<char>,
    EntryModel,
>
    decreases cs.len(),
{
    if cs.len() == 0 {
        s
    } else {
        let next = if is_write(cs[0]) {
            apply(cs[0], s, now)
        } else {
            s
        };
        replay_commands(next, cs.subrange(1, cs.len() as int), now)
    }
}

/// Replaying commands that change the keyspace, from the same store and at the
/// same time, leaves the store that running them left.
pub proof fn lemma_replay_commands(s: Map<Seq<char>, EntryModel>, cs: Seq<CommandModel>, now: u64)
    requires
        forall|i: int| 0 <= i < cs.len() ==> is_write(#[trigger] cs[i]),
    ensures
        replay_commands(s, cs, now) == run_commands(s, cs, now),
    decreases cs.len(),
{
    if cs.len() > 0 {
        let rest = cs.subrange(1, cs.len() as int);
        assert forall|i: int| 0 <= i < rest.len() implies is_write(#[trigger] rest[i]) by {
            assert(rest[i] == cs[i + 1]);
        }
        assert(is_write(cs[0]));
        lemma_replay_commands(apply(cs[0], s, now), rest, now);
    }
}

/// What calling `Frame::parse` on `buf` until it finds no more frame gives:
/// the frames taken, the bytes left, and whether it failed.
pub open spec fn drain(buf: Seq<u8>) -> (Seq<FrameModel>, Seq<u8>, bool)
    decreases buf.len(),
{
    match parse_at(buf, 0, MAX_DEPTH as nat) {
        ParseModel::Done(f, e) => if 0 < e <= buf.len() {
            let rest = drain(buf.subrange(e, buf.len() as int));
            (seq![f] + rest.0, rest.1, rest.2)
        } else {
            (seq![], buf, false)
        },
        ParseModel::Incomplete => (seq![], buf, false),
        ParseModel::Invalid => (seq![], buf, true),
    }
}

/// Feeding the bytes of `b` from place `i` on, one at a time, into the buffer
/// `buf`, and draining it after each: the frames found, the bytes left, and
/// whether decoding failed.
pub open spec fn feed(buf: Seq<u8>, b: Seq<u8>, i: int) -> (Seq<FrameModel>, Seq<u8>, bool)
    decreases b.len() - i,
{
    if i < 0 || i >= b.len() {
        (seq![], buf, false)
    } else {
        let d = drain(buf.push(b[i]));
        if d.2 {
            (d.0, d.1, true)
        } else {
            let r = feed(d.1, b, i + 1);
            (d.0 + r.0, r.1, r.2)
        }
    }
}

proof fn lemma_feed_frame(f: FrameModel, b: Seq<u8>, i0: int, k: int)
    requires
        encodable(f, MAX_DEPTH as nat),
        0 <= i0,
        i0 + encode(f).len() <= b.len(),
        b.subrange(i0, i0 + encode(f).len()) == encode(f),
        0 <= k < encode(f).len(),
    ensures
        ({
            let r = feed(seq![], b, i0 + encode(f).len());
            feed(encode(f).subrange(0, k), b, i0 + k) == (seq![f] + r.0, r.1, r.2)
        }),
    decreases encode(f).len() - k,
{
    let x = encode(f);
    assert(b[i0 + k] == b.subrange(i0, i0 + x.len())[k]);
    assert(x.subrange(0, k).push(x[k]) =~= x.subrange(0, k + 1));
    crate::frame::lemma_incremental(f, k + 1);
    if k + 1 < x.len() {
        lemma_feed_frame(f, b, i0, k + 1);
        assert(seq![] + (seq![f] + feed(seq![], b, i0 + x.len()).0) =~= seq![f] + feed(
            seq![],
            b,
            i0 + x.len(),
        ).0);
    } else {
        assert(x.subrange(0, k + 1) =~= x);
        let empty = x.subrange(x.len() as int, x.len() as int);
        assert(empty =~= Seq::<u8>::empty());
        assert(drain(empty) == (Seq::<FrameModel>::empty(), empty, false));
        assert(seq![f] + Seq::<FrameModel>::empty() =~= seq![f]);
    }
}

proof fn lemma_feed_all(pre: Seq<u8>, fs: Seq<FrameModel>)
    requires
        forall|i: int| 0 <= i < fs.len() ==> encodable(#[trigger] fs[i], MAX_DEPTH as nat),
    ensures
        feed(seq![], pre + concat_all(encodings(fs)), pre.len() as int) == (
            fs,
            Seq::<u8>::empty(),
            false,
        ),
    decreases fs.len(),
{
    let b = pre + concat_all(encodings(fs));
    if fs.len() == 0 {
        assert(b.len() == pre.len());
        assert(fs =~= Seq::<FrameModel>::empty());
    } else {
        let rest = fs.subrange(1, fs.len() as int);
        let x = encode(fs[0]);
        assert(encodings(fs)[0] == x);
        assert(encodings(fs).subrange(1, fs.len() as int) =~= encodings(rest));
        assert(b =~= (pre + x) + concat_all(encodings(rest)));
        assert(b.subrange(pre.len() as int, (pre.len() + x.len()) as int) =~= x);
        assert(x.len() > 0) by {
            crate::frame::lemma_round_trip(fs[0]);
        }
        assert(x.subrange(0, 0) =~= Seq::<u8>::empty());
        lemma_feed_frame(fs[0], b, pre.len() as int, 0);
        assert forall|i: int| 0 <= i < rest.len() implies encodable(#[trigger] rest[i], MAX_DEPTH as nat) by {
            assert(rest[i] == fs[i + 1]);
        }
        lemma_feed_all(pre + x, rest);
        assert(seq![fs[0]] + rest =~= fs);
    }
}

/// Feeding the wire bytes of frames one byte at a time to the decoder, and
/// taking every frame it finds after each byte, gives back exactly those
/// frames in order, with no error and nothing left over.
pub proof fn lemma_feed_encoded(fs: Seq<FrameModel>)
    requires
        forall|i: int| 0 <= i < fs.len() ==> encodable(#[trigger] fs[i], MAX_DEPTH as nat),
    ensures
        feed(seq![], concat_all(encodings(fs)), 0) == (fs, Seq::<u8>::empty(), false),
{
    lemma_feed_all(seq![], fs);
    assert(seq![] + concat_all(encodings(fs)) =~= concat_all(encodings(fs)));
}

} // verus!
