//! Wire frames and their byte-exact codec.
use vstd::prelude::*;
use vstd::utf8::{
    decode_utf8, encode_utf8, encode_utf8_decode_utf8, encode_utf8_valid_utf8, valid_utf8,
};

verus! {

/// What a frame means, independent of how it is held in memory.
pub enum FrameModel {
    Simple(Seq<char>),
    Error(Seq<char>),
    Integer(i64),
    Bulk(Seq<u8>),
    Array(Seq<FrameModel>),
    Null,
}

/// One message of the wire protocol.
#[derive(Debug)]
pub enum Frame {
    Simple(String),
    Error(String),
    Integer(i64),
    Bulk(Vec<u8>),
    Array(Vec<Frame>),
    Null,
}

impl View for Frame {
    type V = FrameModel;

    open spec fn view(&self) -> FrameModel {
        frame_model(*self)
    }
}

/// The model of one frame.
pub open spec fn frame_model(f: Frame) -> FrameModel
    decreases f,
{
    match f {
        Frame::Simple(s) => FrameModel::Simple(s@),
        Frame::Error(s) => FrameModel::Error(s@),
        Frame::Integer(n) => FrameModel::Integer(n),
        Frame::Bulk(b) => FrameModel::Bulk(b@),
        Frame::Array(items) => FrameModel::Array(models(items@)),
        Frame::Null => FrameModel::Null,
    }
}

/// The models of a sequence of frames, one for one.
pub open spec fn models(v: Seq<Frame>) -> Seq<FrameModel>
    decreases v,
{
    if v.len() == 0 {
        seq![]
    } else {
        models(v.drop_last()).push(frame_model(v.last()))
    }
}

/// Deepest array nesting the decoder accepts.
pub const MAX_DEPTH: usize = 64;

/// The error of a failed read or write on the byte stream; carried, never inspected.
#[verifier::external_type_specification]
#[verifier::external_body]
pub struct ExIoError(std::io::Error);

/// Why a frame could not be taken from the front of a buffer.
#[derive(Debug)]
pub enum Error {
    /// The buffer holds a strict prefix of a frame: read more bytes.
    Incomplete,
    /// The bytes cannot begin any frame.
    Invalid(String),
    /// The byte stream under the buffer failed.
    Io(std::io::Error),
}

impl From<std::io::Error> for Error {
    fn from(err: std::io::Error) -> (r: Error) {
        Error::Io(err)
    }
}

impl vstd::std_specs::convert::FromSpecImpl<std::io::Error> for Error {
    open spec fn obeys_from_spec() -> bool {
        true
    }

    open spec fn from_spec(v: std::io::Error) -> Error {
        Error::Io(v)
    }
}

pub open spec fn is_digit(b: u8) -> bool {
    48 <= b <= 57
}

pub open spec fn all_digits(t: Seq<u8>) -> bool {
    forall|i: int| 0 <= i < t.len() ==> is_digit(#[trigger] t[i])
}

/// The number that a run of decimal digits spells.
pub open spec fn digits_value(t: Seq<u8>) -> nat
    decreases t.len(),
{
    if t.len() == 0 {
        0
    } else {
        digits_value(t.drop_last()) * 10 + (t.last() - 48) as nat
    }
}

/// A signed 64-bit decimal: an optional `+` or `-`, then one or more digits,
/// with a value in range.
pub open spec fn decimal_value(t: Seq<u8>) -> Option<i64> {
    if t.len() > 0 && (t[0] == 45 || t[0] == 43) {
        let d = t.drop_first();
        if d.len() > 0 && all_digits(d) {
            if t[0] == 45 {
                if digits_value(d) <= 0x8000_0000_0000_0000 {
                    Some((-digits_value(d)) as i64)
                } else {
                    None
                }
            } else if digits_value(d) <= i64::MAX {
                Some(digits_value(d) as i64)
            } else {
                None
            }
        } else {
            None
        }
    } else if t.len() > 0 && all_digits(t) && digits_value(t) <= i64::MAX {
        Some(digits_value(t) as i64)
    } else {
        None
    }
}

/// The first CR or LF at or after `i`, or the end of `s`.
pub open spec fn line_stop(s: Seq<u8>, i: int) -> int
    decreases s.len() - i,
{
    if i < 0 || i >= s.len() {
        s.len() as int
    } else if s[i] == 13 || s[i] == 10 {
        i
    } else {
        line_stop(s, i + 1)
    }
}

/// How a CRLF-terminated line starting at `p` reads.
pub enum LineModel {
    Incomplete,
    Invalid,
    /// The text ends at the first field; the next line starts at the second.
    Line(int, int),
}

pub open spec fn line_at(s: Seq<u8>, p: int) -> LineModel {
    let e = line_stop(s, p);
    if e >= s.len() {
        LineModel::Incomplete
    } else if s[e] == 10 {
        LineModel::Invalid
    } else if e + 1 >= s.len() {
        LineModel::Incomplete
    } else if s[e + 1] != 10 {
        LineModel::Invalid
    } else {
        LineModel::Line(e, e + 2)
    }
}

/// What the decoder makes of the bytes at a position.
pub enum ParseModel {
    Incomplete,
    Invalid,
    /// A frame, and the position just past its last byte.
    Done(FrameModel, int),
}

pub enum ItemsModel {
    Incomplete,
    Invalid,
    Done(Seq<FrameModel>, int),
}

pub open spec fn is_tag(b: u8) -> bool {
    b == 43 || b == 45 || b == 58 || b == 36 || b == 42
}

/// The frame that starts at `p` in `s`, with at most `d` levels of arrays.
pub open spec fn parse_at(s: Seq<u8>, p: int, d: nat) -> ParseModel
    decreases d, 0nat, 0nat,
{
    if p < 0 || p >= s.len() {
        ParseModel::Incomplete
    } else if !is_tag(s[p]) {
        ParseModel::Invalid
    } else {
        let tag = s[p];
        match line_at(s, p + 1) {
            LineModel::Incomplete => ParseModel::Incomplete,
            LineModel::Invalid => ParseModel::Invalid,
            LineModel::Line(e, next) => {
                let text = s.subrange(p + 1, e);
                if tag == 43 || tag == 45 {
                    if valid_utf8(text) {
                        if tag == 43 {
                            ParseModel::Done(FrameModel::Simple(decode_utf8(text)), next)
                        } else {
                            ParseModel::Done(FrameModel::Error(decode_utf8(text)), next)
                        }
                    } else {
                        ParseModel::Invalid
                    }
                } else {
                    match decimal_value(text) {
                        None => ParseModel::Invalid,
                        Some(n) => if tag == 58 {
                            ParseModel::Done(FrameModel::Integer(n), next)
                        } else if n == -1 {
                            ParseModel::Done(FrameModel::Null, next)
                        } else if n < 0 {
                            ParseModel::Invalid
                        } else if tag == 36 {
                            if next + n + 2 > s.len() {
                                ParseModel::Incomplete
                            } else if s[next + n] != 13 || s[next + n + 1] != 10 {
                                ParseModel::Invalid
                            } else {
                                ParseModel::Done(
                                    FrameModel::Bulk(s.subrange(next, next + n)),
                                    next + n + 2,
                                )
                            }
                        } else if d == 0 {
                            ParseModel::Invalid
                        } else {
                            match parse_items(s, next, n as nat, (d - 1) as nat) {
                                ItemsModel::Incomplete => ParseModel::Incomplete,
                                ItemsModel::Invalid => ParseModel::Invalid,
                                ItemsModel::Done(items, q) => ParseModel::Done(
                                    FrameModel::Array(items),
                                    q,
                                ),
                            }
                        },
                    }
                }
            },
        }
    }
}

/// `n` frames one after another from `p`.
pub open spec fn parse_items(s: Seq<u8>, p: int, n: nat, d: nat) -> ItemsModel
    decreases d, 1nat, n,
{
    if n == 0 {
        ItemsModel::Done(seq![], p)
    } else {
        match parse_at(s, p, d) {
            ParseModel::Incomplete => ItemsModel::Incomplete,
            ParseModel::Invalid => ItemsModel::Invalid,
            ParseModel::Done(f, q) => match parse_items(s, q, (n - 1) as nat, d) {
                ItemsModel::Done(fs, r) => ItemsModel::Done(seq![f] + fs, r),
                other => other,
            },
        }
    }
}

/// `acc` followed by what `m` parsed.
pub open spec fn after(acc: Seq<FrameModel>, m: ItemsModel) -> ItemsModel {
    match m {
        ItemsModel::Done(fs, r) => ItemsModel::Done(acc + fs, r),
        other => other,
    }
}

/// A read position in a borrowed byte buffer.
pub struct Cursor<'a> {
    pub buf: &'a [u8],
    pub pos: usize,
}

/// Relies on `String::from_utf8`: the string holds exactly the given bytes,
/// and it fails exactly on bytes that are not UTF-8.
#[verifier::external_body]
pub(crate) fn utf8_string(bytes: Vec<u8>) -> (r: Option<String>)
    ensures
        r is Some <==> valid_utf8(bytes@),
        r matches Some(s) ==> s@ == decode_utf8(bytes@),
{
    String::from_utf8(bytes).ok()
}

/// A copy of the bytes of a slice.
pub fn copy_bytes(b: &[u8]) -> (r: Vec<u8>)
    ensures
        r@ == b@,
{
    let mut out: Vec<u8> = Vec::new();
    let mut i: usize = 0;
    while i < b.len()
        invariant
            i <= b@.len(),
            out@ == b@.subrange(0, i as int),
        decreases b@.len() - i,
    {
        out.push(b[i]);
        i = i + 1;
        assert(out@ =~= b@.subrange(0, i as int));
    }
    assert(out@ =~= b@);
    out
}

/// Reads one byte.
pub fn get_u8(cursor: &mut Cursor) -> (r: Result<u8, Error>)
    requires
        old(cursor).pos <= old(cursor).buf@.len(),
    ensures
        final(cursor).buf == old(cursor).buf,
        final(cursor).pos <= final(cursor).buf@.len(),
        old(cursor).pos < old(cursor).buf@.len() ==> r == Ok::<u8, Error>(
            old(cursor).buf@[old(cursor).pos as int],
        ) && final(cursor).pos == old(cursor).pos + 1,
        old(cursor).pos >= old(cursor).buf@.len() ==> (r matches Err(Error::Incomplete)
            && final(cursor).pos == old(cursor).pos),
{
    if cursor.pos >= cursor.buf.len() {
        return Err(Error::Incomplete);
    }
    let b = cursor.buf[cursor.pos];
    cursor.pos = cursor.pos + 1;
    Ok(b)
}

/// Reads a CRLF-terminated line and hands back its text without the CRLF.
pub fn read_line<'a>(cursor: &mut Cursor<'a>) -> (r: Result<&'a [u8], Error>)
    requires
        old(cursor).pos <= old(cursor).buf@.len(),
    ensures
        final(cursor).buf == old(cursor).buf,
        final(cursor).pos <= final(cursor).buf@.len(),
        match line_at(old(cursor).buf@, old(cursor).pos as int) {
            LineModel::Incomplete => r matches Err(Error::Incomplete) && final(cursor).pos
                == old(cursor).pos,
            LineModel::Invalid => r matches Err(Error::Invalid(_)),
            LineModel::Line(e, next) => r matches Ok(t) && t@ == old(cursor).buf@.subrange(
                old(cursor).pos as int,
                e,
            ) && final(cursor).pos == next,
        },
{
    let start = cursor.pos;
    let buf = cursor.buf;
    let mut i: usize = start;
    while i < buf.len() && buf[i] != 13 && buf[i] != 10
        invariant
            start <= i <= buf@.len(),
            line_stop(buf@, start as int) == line_stop(buf@, i as int),
        decreases buf@.len() - i,
    {
        i = i + 1;
    }
    if i >= buf.len() {
        return Err(Error::Incomplete);
    }
    if buf[i] == 10 {
        return Err(Error::Invalid("line feed without carriage return".to_string()));
    }
    if i + 1 >= buf.len() {
        return Err(Error::Incomplete);
    }
    if buf[i + 1] != 10 {
        return Err(Error::Invalid("carriage return without line feed".to_string()));
    }
    cursor.pos = i + 2;
    Ok(&buf[start..i])
}

/// Reads a CRLF-terminated line and drops it.
pub fn read_until_crlf(cursor: &mut Cursor) -> (r: Result<(), Error>)
    requires
        old(cursor).pos <= old(cursor).buf@.len(),
    ensures
        final(cursor).buf == old(cursor).buf,
        final(cursor).pos <= final(cursor).buf@.len(),
        match line_at(old(cursor).buf@, old(cursor).pos as int) {
            LineModel::Incomplete => r matches Err(Error::Incomplete) && final(cursor).pos
                == old(cursor).pos,
            LineModel::Invalid => r matches Err(Error::Invalid(_)),
            LineModel::Line(e, next) => r is Ok && final(cursor).pos == next,
        },
{
    match read_line(cursor) {
        Ok(_) => Ok(()),
        Err(e) => Err(e),
    }
}

/// The signed 64-bit value of decimal text, if it is one.
pub fn parse_decimal(t: &[u8]) -> (r: Option<i64>)
    ensures
        r == decimal_value(t@),
{
    let n = t.len();
    if n == 0 {
        return None;
    }
    let signed = t[0] == 45 || t[0] == 43;
    let start: usize = if signed { 1 } else { 0 };
    if start == n {
        return None;
    }
    let ghost digits = t@.subrange(start as int, n as int);
    let mut acc: u64 = 0;
    let mut over = false;
    let mut i: usize = start;
    while i < n
        invariant
            n == t@.len(),
            n > 0,
            signed == (t@[0] == 45 || t@[0] == 43),
            start == (if signed { 1usize } else { 0usize }),
            start <= i <= n,
            forall|j: int| start <= j < i ==> is_digit(#[trigger] t@[j]),
            !over ==> acc == digits_value(t@.subrange(start as int, i as int)) && acc
                <= 0x8000_0000_0000_0000u64,
            over ==> digits_value(t@.subrange(start as int, i as int)) > 0x8000_0000_0000_0000u64,
        decreases n - i,
    {
        let b = t[i];
        if b < 48 || b > 57 {
            assert(!all_digits(t@.subrange(start as int, n as int))) by {
                assert(t@.subrange(start as int, n as int)[i - start] == b);
            }
            if signed {
                assert(t@.drop_first() =~= t@.subrange(start as int, n as int));
            } else {
                assert(!all_digits(t@)) by {
                    assert(t@[i as int] == b);
                }
            }
            return None;
        }
        let d = (b - 48) as u64;
        let ghost prev = t@.subrange(start as int, i as int);
        let ghost cur = t@.subrange(start as int, i + 1);
        assert(cur.drop_last() =~= prev);
        assert(digits_value(cur) == digits_value(prev) * 10 + d);
        if !over {
            if acc > (0x8000_0000_0000_0000u64 - d) / 10 {
                assert(acc * 10 + d > 0x8000_0000_0000_0000u64) by (nonlinear_arith)
                    requires
                        acc > (0x8000_0000_0000_0000u64 - d) / 10,
                        d <= 9,
                ;
                over = true;
            } else {
                assert(acc * 10 + d <= 0x8000_0000_0000_0000u64) by (nonlinear_arith)
                    requires
                        acc <= (0x8000_0000_0000_0000u64 - d) / 10,
                        d <= 9,
                ;
                acc = acc * 10 + d;
            }
        }
        i = i + 1;
    }
    assert(t@.subrange(start as int, n as int) == digits);
    assert(all_digits(digits));
    if signed {
        assert(t@.drop_first() =~= digits);
    } else {
        assert(t@ =~= digits);
    }
    if over {
        return None;
    }
    if t[0] == 45 {
        if acc == 0x8000_0000_0000_0000u64 {
            Some(i64::MIN)
        } else {
            Some(-(acc as i64))
        }
    } else if acc > 0x7fff_ffff_ffff_ffffu64 {
        None
    } else {
        Some(acc as i64)
    }
}

/// Reads a CRLF-terminated signed decimal.
pub fn read_decimal(cursor: &mut Cursor) -> (r: Result<i64, Error>)
    requires
        old(cursor).pos <= old(cursor).buf@.len(),
    ensures
        final(cursor).buf == old(cursor).buf,
        final(cursor).pos <= final(cursor).buf@.len(),
        match line_at(old(cursor).buf@, old(cursor).pos as int) {
            LineModel::Incomplete => r matches Err(Error::Incomplete) && final(cursor).pos
                == old(cursor).pos,
            LineModel::Invalid => r matches Err(Error::Invalid(_)),
            LineModel::Line(e, next) => match decimal_value(
                old(cursor).buf@.subrange(old(cursor).pos as int, e),
            ) {
                Some(n) => r == Ok::<i64, Error>(n) && final(cursor).pos == next,
                None => r matches Err(Error::Invalid(_)),
            },
        },
{
    let line = match read_line(cursor) {
        Ok(line) => line,
        Err(e) => return Err(e),
    };
    match parse_decimal(line) {
        Some(n) => Ok(n),
        None => Err(Error::Invalid("invalid decimal".to_string())),
    }
}

/// Reads exactly `n` bytes.
pub fn read_n_bytes<'a>(cursor: &mut Cursor<'a>, n: usize) -> (r: Result<&'a [u8], Error>)
    requires
        old(cursor).pos <= old(cursor).buf@.len(),
    ensures
        final(cursor).buf == old(cursor).buf,
        final(cursor).pos <= final(cursor).buf@.len(),
        old(cursor).pos + n <= old(cursor).buf@.len() ==> (r matches Ok(t) && t@ == old(cursor).buf@.subrange(
            old(cursor).pos as int,
            old(cursor).pos + n,
        ) && final(cursor).pos == old(cursor).pos + n),
        old(cursor).pos + n > old(cursor).buf@.len() ==> (r matches Err(Error::Incomplete)
            && final(cursor).pos == old(cursor).pos),
{
    let start = cursor.pos;
    if n > cursor.buf.len() - start {
        return Err(Error::Incomplete);
    }
    cursor.pos = start + n;
    Ok(&cursor.buf[start..start + n])
}

/// Moves past `n` bytes.
pub fn skip(cursor: &mut Cursor, n: usize) -> (r: Result<(), Error>)
    requires
        old(cursor).pos <= old(cursor).buf@.len(),
    ensures
        final(cursor).buf == old(cursor).buf,
        final(cursor).pos <= final(cursor).buf@.len(),
        old(cursor).pos + n <= old(cursor).buf@.len() ==> r is Ok && final(cursor).pos == old(
            cursor,
        ).pos + n,
        old(cursor).pos + n > old(cursor).buf@.len() ==> (r matches Err(Error::Incomplete)
            && final(cursor).pos == old(cursor).pos),
{
    if n > cursor.buf.len() - cursor.pos {
        return Err(Error::Incomplete);
    }
    cursor.pos = cursor.pos + n;
    Ok(())
}

proof fn lemma_after_step(acc: Seq<FrameModel>, f: FrameModel, m: ItemsModel)
    ensures
        after(acc, after(seq![f], m)) == after(acc.push(f), m),
{
    if let ItemsModel::Done(fs, r) = m {
        assert(acc + (seq![f] + fs) =~= acc.push(f) + fs);
    }
}

/// Decodes the frame at the cursor, with at most `depth` levels of arrays.
pub fn parse_frame(cursor: &mut Cursor, depth: usize) -> (r: Result<Frame, Error>)
    requires
        old(cursor).pos <= old(cursor).buf@.len(),
    ensures
        final(cursor).buf == old(cursor).buf,
        final(cursor).pos <= final(cursor).buf@.len(),
        match parse_at(old(cursor).buf@, old(cursor).pos as int, depth as nat) {
            ParseModel::Incomplete => r matches Err(Error::Incomplete),
            ParseModel::Invalid => r matches Err(Error::Invalid(_)),
            ParseModel::Done(f, e) => (r matches Ok(fr) && fr@ == f) && final(cursor).pos == e,
        },
    decreases depth,
{
    let buf = cursor.buf;
    let ghost s = buf@;
    let tag = match get_u8(cursor) {
        Ok(b) => b,
        Err(e) => return Err(e),
    };
    if !(tag == 43 || tag == 45 || tag == 58 || tag == 36 || tag == 42) {
        return Err(Error::Invalid("invalid frame type byte".to_string()));
    }
    if tag == 43 || tag == 45 {
        let line = match read_line(cursor) {
            Ok(line) => line,
            Err(e) => return Err(e),
        };
        match utf8_string(copy_bytes(line)) {
            Some(text) => if tag == 43 {
                Ok(Frame::Simple(text))
            } else {
                Ok(Frame::Error(text))
            },
            None => Err(Error::Invalid("text is not UTF-8".to_string())),
        }
    } else {
        let n = match read_decimal(cursor) {
            Ok(n) => n,
            Err(e) => return Err(e),
        };
        if tag == 58 {
            return Ok(Frame::Integer(n));
        }
        if n == -1 {
            return Ok(Frame::Null);
        }
        if n < 0 {
            return Err(Error::Invalid("negative length".to_string()));
        }
        if tag == 36 {
            let rem = buf.len() - cursor.pos;
            if n as u64 + 2 > rem as u64 {
                return Err(Error::Incomplete);
            }
            let data = match read_n_bytes(cursor, n as usize) {
                Ok(data) => data,
                Err(e) => return Err(e),
            };
            let p = cursor.pos;
            if buf[p] != 13 || buf[p + 1] != 10 {
                return Err(Error::Invalid("bulk data without CRLF".to_string()));
            }
            cursor.pos = p + 2;
            Ok(Frame::Bulk(copy_bytes(data)))
        } else {
            if depth == 0 {
                return Err(Error::Invalid("arrays nested too deep".to_string()));
            }
            let count = n as u64;
            let ghost next = cursor.pos as int;
            let ghost whole = parse_at(s, old(cursor).pos as int, depth as nat);
            assert(whole == match parse_items(s, next, count as nat, (depth - 1) as nat) {
                ItemsModel::Incomplete => ParseModel::Incomplete,
                ItemsModel::Invalid => ParseModel::Invalid,
                ItemsModel::Done(items, q) => ParseModel::Done(FrameModel::Array(items), q),
            });
            let mut items: Vec<Frame> = Vec::new();
            let mut i: u64 = 0;
            while i < count
                invariant
                    cursor.buf == buf,
                    old(cursor).buf == buf,
                    s == buf@,
                    whole == parse_at(s, old(cursor).pos as int, depth as nat),
                    whole == match parse_items(s, next, count as nat, (depth - 1) as nat) {
                        ItemsModel::Incomplete => ParseModel::Incomplete,
                        ItemsModel::Invalid => ParseModel::Invalid,
                        ItemsModel::Done(items, q) => ParseModel::Done(FrameModel::Array(items), q),
                    },
                    depth > 0,
                    cursor.pos <= buf@.len(),
                    i <= count,
                    parse_items(s, next, count as nat, (depth - 1) as nat) == after(
                        models(items@),
                        parse_items(s, cursor.pos as int, (count - i) as nat, (depth - 1) as nat),
                    ),
                decreases count - i,
            {
                let ghost before = cursor.pos as int;
                let item = match parse_frame(cursor, depth - 1) {
                    Ok(f) => f,
                    Err(e) => {
                        let ghost rest = parse_items(s, before, (count - i) as nat, (depth - 1) as nat);
                        assert(rest == match parse_at(s, before, (depth - 1) as nat) {
                            ParseModel::Incomplete => ItemsModel::Incomplete,
                            ParseModel::Invalid => ItemsModel::Invalid,
                            ParseModel::Done(f, q) => match parse_items(s, q, (count - i - 1) as nat, (depth - 1) as nat) {
                                ItemsModel::Done(fs, r) => ItemsModel::Done(seq![f] + fs, r),
                                other => other,
                            },
                        });
                        assert(after(models(items@), rest) == rest);
                        return Err(e);
                    },
                };
                proof {
                    lemma_after_step(
                        models(items@),
                        item@,
                        parse_items(s, cursor.pos as int, (count - i - 1) as nat, (depth - 1) as nat),
                    );
                }
                let ghost prev = items@;
                items.push(item);
                assert(items@.drop_last() =~= prev);
                i = i + 1;
            }
            Ok(Frame::Array(items))
        }
    }
}

/// Checks that a whole frame is available at the cursor and moves past it.
pub fn check_complete(cursor: &mut Cursor) -> (r: Result<(), Error>)
    requires
        old(cursor).pos <= old(cursor).buf@.len(),
    ensures
        final(cursor).buf == old(cursor).buf,
        match parse_at(old(cursor).buf@, old(cursor).pos as int, MAX_DEPTH as nat) {
            ParseModel::Incomplete => r matches Err(Error::Incomplete),
            ParseModel::Invalid => r matches Err(Error::Invalid(_)),
            ParseModel::Done(f, e) => r is Ok && final(cursor).pos == e,
        },
{
    match parse_frame(cursor, MAX_DEPTH) {
        Ok(_) => Ok(()),
        Err(e) => Err(e),
    }
}

/// What it means when a read from a client brings no more bytes.
#[derive(Debug, PartialEq, Eq, Structural)]
pub enum StreamEnd {
    /// The client hung up between frames.
    Closed,
    /// The client hung up in the middle of a frame.
    Reset,
}

/// The end of a stream with `pending` bytes of an unfinished frame left over.
pub fn end_of_stream(pending: usize) -> (r: StreamEnd)
    ensures
        r == (if pending == 0 {
            StreamEnd::Closed
        } else {
            StreamEnd::Reset
        }),
{
    if pending == 0 {
        StreamEnd::Closed
    } else {
        StreamEnd::Reset
    }
}

/// A growable buffer of bytes read from a stream.
#[verifier::external_type_specification]
#[verifier::external_body]
pub struct ExBytesMut(bytes::BytesMut);

/// The bytes that a read buffer holds, front first.
pub uninterp spec fn buffered(b: bytes::BytesMut) -> Seq<u8>;

/// Relies on `<BytesMut as Deref>::deref`: the slice is the buffered bytes.
#[verifier::external_body]
fn buffer_bytes(b: &bytes::BytesMut) -> (r: &[u8])
    ensures
        r@ == buffered(*b),
{
    &b[..]
}

/// Relies on `<BytesMut as Buf>::advance`: drops the first `cnt` bytes, and
/// panics when fewer are held.
#[verifier::external_body]
fn drop_front(b: &mut bytes::BytesMut, cnt: usize)
    requires
        cnt <= buffered(*old(b)).len(),
    ensures
        buffered(*final(b)) == buffered(*old(b)).subrange(cnt as int, buffered(*old(b)).len() as int),
{
    bytes::Buf::advance(b, cnt)
}

impl Frame {
    pub fn simple(s: String) -> (f: Frame)
        ensures
            f@ == FrameModel::Simple(s@),
    {
        Frame::Simple(s)
    }

    pub fn error(msg: String) -> (f: Frame)
        ensures
            f@ == FrameModel::Error(msg@),
    {
        Frame::Error(msg)
    }

    pub fn integer(n: i64) -> (f: Frame)
        ensures
            f@ == FrameModel::Integer(n),
    {
        Frame::Integer(n)
    }

    pub fn bulk(data: Vec<u8>) -> (f: Frame)
        ensures
            f@ == FrameModel::Bulk(data@),
    {
        Frame::Bulk(data)
    }

    pub fn array(items: Vec<Frame>) -> (f: Frame)
        ensures
            f@ == FrameModel::Array(models(items@)),
    {
        Frame::Array(items)
    }

    pub fn null() -> (f: Frame)
        ensures
            f@ == FrameModel::Null,
    {
        Frame::Null
    }

    /// Takes one frame from the front of `buf`. A buffer that holds only part of
    /// a frame gives `Ok(None)` and is left as it was; malformed bytes give
    /// `Error::Invalid`.
    pub fn parse(buf: &mut bytes::BytesMut) -> (r: Result<Option<Frame>, Error>)
        ensures
            match parse_at(buffered(*old(buf)), 0, MAX_DEPTH as nat) {
                ParseModel::Incomplete => r matches Ok(None) && buffered(*final(buf)) == buffered(
                    *old(buf),
                ),
                ParseModel::Invalid => r matches Err(Error::Invalid(_)) && buffered(*final(buf))
                    == buffered(*old(buf)),
                ParseModel::Done(f, e) => (r matches Ok(Some(fr)) && fr@ == f) && buffered(
                    *final(buf),
                ) == buffered(*old(buf)).subrange(e, buffered(*old(buf)).len() as int),
            },
    {
        let data = buffer_bytes(buf);
        let mut cursor = Cursor { buf: data, pos: 0 };
        match parse_frame(&mut cursor, MAX_DEPTH) {
            Ok(f) => {
                let n = cursor.pos;
                drop_front(buf, n);
                Ok(Some(f))
            },
            Err(Error::Incomplete) => Ok(None),
            Err(e) => Err(e),
        }
    }

    /// As `parse`, and also hands back the bytes that the frame took, exactly
    /// as they were in the buffer.
    pub fn parse_with_bytes(buf: &mut bytes::BytesMut) -> (r: Result<Option<(Frame, Vec<u8>)>, Error>)
        ensures
            match parse_at(buffered(*old(buf)), 0, MAX_DEPTH as nat) {
                ParseModel::Incomplete => r matches Ok(None) && buffered(*final(buf)) == buffered(
                    *old(buf),
                ),
                ParseModel::Invalid => r matches Err(Error::Invalid(_)) && buffered(*final(buf))
                    == buffered(*old(buf)),
                ParseModel::Done(f, e) => (r matches Ok(Some(p)) && p.0@ == f && p.1@ == buffered(
                    *old(buf),
                ).subrange(0, e)) && buffered(*final(buf)) == buffered(*old(buf)).subrange(
                    e,
                    buffered(*old(buf)).len() as int,
                ),
            },
    {
        let data = buffer_bytes(buf);
        let mut cursor = Cursor { buf: data, pos: 0 };
        match parse_frame(&mut cursor, MAX_DEPTH) {
            Ok(f) => {
                let n = cursor.pos;
                let raw = copy_bytes(&data[0..n]);
                drop_front(buf, n);
                Ok(Some((f, raw)))
            },
            Err(Error::Incomplete) => Ok(None),
            Err(e) => Err(e),
        }
    }
}

pub open spec fn crlf() -> Seq<u8> {
    seq![13u8, 10u8]
}

/// The shortest decimal digits of `v`.
pub open spec fn digits_text(v: nat) -> Seq<u8>
    decreases v,
{
    if v < 10 {
        seq![(48 + v) as u8]
    } else {
        digits_text(v / 10).push((48 + v % 10) as u8)
    }
}

/// The decimal text of `n`, with a `-` when negative.
pub open spec fn int_text(n: int) -> Seq<u8> {
    if n < 0 {
        seq![45u8] + digits_text((-n) as nat)
    } else {
        digits_text(n as nat)
    }
}

/// The bytes that stand for a frame on the wire.
pub open spec fn encode(f: FrameModel) -> Seq<u8>
    decreases f,
{
    match f {
        FrameModel::Simple(s) => seq![43u8] + encode_utf8(s) + crlf(),
        FrameModel::Error(s) => seq![45u8] + encode_utf8(s) + crlf(),
        FrameModel::Integer(n) => seq![58u8] + int_text(n as int) + crlf(),
        FrameModel::Bulk(b) => seq![36u8] + int_text(b.len() as int) + crlf() + b + crlf(),
        FrameModel::Array(items) => seq![42u8] + int_text(items.len() as int) + crlf()
            + encode_items(items),
        FrameModel::Null => seq![36u8, 45u8, 49u8, 13u8, 10u8],
    }
}

/// The frames of `items` encoded one after another.
pub open spec fn encode_items(items: Seq<FrameModel>) -> Seq<u8>
    decreases items,
{
    if items.len() == 0 {
        seq![]
    } else {
        encode_items(items.drop_last()) + encode(items.last())
    }
}

fn push_bytes(buf: &mut Vec<u8>, b: &[u8])
    ensures
        final(buf)@ == old(buf)@ + b@,
{
    let mut i: usize = 0;
    while i < b.len()
        invariant
            i <= b@.len(),
            buf@ == old(buf)@ + b@.subrange(0, i as int),
        decreases b@.len() - i,
    {
        buf.push(b[i]);
        i = i + 1;
        assert(buf@ =~= old(buf)@ + b@.subrange(0, i as int));
    }
    assert(b@.subrange(0, i as int) =~= b@);
}

fn push_crlf(buf: &mut Vec<u8>)
    ensures
        final(buf)@ == old(buf)@ + crlf(),
{
    buf.push(13);
    buf.push(10);
    assert(buf@ =~= old(buf)@ + crlf());
}

/// Appends the decimal digits of `v`.
fn push_digits(buf: &mut Vec<u8>, v: u64)
    ensures
        final(buf)@ == old(buf)@ + digits_text(v as nat),
    decreases v,
{
    if v >= 10 {
        push_digits(buf, v / 10);
    }
    buf.push((48 + v % 10) as u8);
    if v >= 10 {
        assert(buf@ =~= old(buf)@ + digits_text(v as nat));
    } else {
        assert(buf@ =~= old(buf)@ + digits_text(v as nat));
    }
}

/// Appends the decimal text of `n`.
fn push_int(buf: &mut Vec<u8>, n: i64)
    ensures
        final(buf)@ == old(buf)@ + int_text(n as int),
{
    if n < 0 {
        buf.push(45);
        let mag: u64 = if n == i64::MIN {
            0x8000_0000_0000_0000u64
        } else {
            (-n) as u64
        };
        push_digits(buf, mag);
        assert(buf@ =~= old(buf)@ + int_text(n as int));
    } else {
        push_digits(buf, n as u64);
    }
}

/// Appends the wire bytes of `frame` to `buf`.
pub fn write_frame_recursive(frame: &Frame, buf: &mut Vec<u8>)
    ensures
        final(buf)@ == old(buf)@ + encode(frame@),
    decreases frame,
{
    match frame {
        Frame::Simple(s) => {
            buf.push(43);
            push_bytes(buf, s.as_str().as_bytes());
            push_crlf(buf);
            assert(buf@ =~= old(buf)@ + encode(frame@));
        },
        Frame::Error(s) => {
            buf.push(45);
            push_bytes(buf, s.as_str().as_bytes());
            push_crlf(buf);
            assert(buf@ =~= old(buf)@ + encode(frame@));
        },
        Frame::Integer(n) => {
            buf.push(58);
            push_int(buf, *n);
            push_crlf(buf);
            assert(buf@ =~= old(buf)@ + encode(frame@));
        },
        Frame::Bulk(data) => {
            buf.push(36);
            push_digits(buf, data.len() as u64);
            push_crlf(buf);
            push_bytes(buf, data.as_slice());
            push_crlf(buf);
            assert(buf@ =~= old(buf)@ + encode(frame@));
        },
        Frame::Array(items) => {
            buf.push(42);
            push_digits(buf, items.len() as u64);
            push_crlf(buf);
            let ghost head = buf@;
            proof {
                lemma_models_index(items@, 0);
            }
            let mut i: usize = 0;
            while i < items.len()
                invariant
                    i <= items@.len(),
                    buf@ == head + encode_items(models(items@).take(i as int)),
                    models(items@).len() == items@.len(),
                    *frame == Frame::Array(*items),
                decreases items@.len() - i,
            {
                proof {
                    lemma_models_index(items@, i as int);
                    vstd::std_specs::vec::axiom_vec_index_decreases(*items, i as int);
                    assert(decreases_to!(*frame => frame->Array_0));
                }
                write_frame_recursive(&items[i], buf);
                assert(models(items@).take(i + 1).drop_last() =~= models(items@).take(i as int));
                i = i + 1;
            }
            assert(models(items@).take(i as int) =~= models(items@));
            assert(buf@ =~= old(buf)@ + encode(frame@));
        },
        Frame::Null => {
            buf.push(36);
            buf.push(45);
            buf.push(49);
            push_crlf(buf);
            assert(buf@ =~= old(buf)@ + encode(frame@));
        },
    }
}

/// `models` keeps the length and maps each frame to its model.
pub proof fn lemma_models_index(v: Seq<Frame>, i: int)
    ensures
        models(v).len() == v.len(),
        0 <= i < v.len() ==> models(v)[i] == v[i]@,
    decreases v.len(),
{
    if v.len() > 0 {
        lemma_models_index(v.drop_last(), i);
    }
}

/// The wire bytes of a frame.
pub fn serialize_frame(frame: &Frame) -> (r: Vec<u8>)
    ensures
        r@ == encode(frame@),
{
    let mut buf: Vec<u8> = Vec::new();
    write_frame_recursive(frame, &mut buf);
    assert(buf@ =~= encode(frame@));
    buf
}

/// Text that holds no CR and no LF byte.
pub open spec fn no_crlf(t: Seq<u8>) -> bool {
    forall|i: int| 0 <= i < t.len() ==> #[trigger] t[i] != 13 && t[i] != 10
}

/// Frames that the codec can carry: text without CR or LF, lengths in range,
/// and at most `d` levels of arrays.
pub open spec fn encodable(f: FrameModel, d: nat) -> bool
    decreases f,
{
    match f {
        FrameModel::Simple(s) => no_crlf(encode_utf8(s)),
        FrameModel::Error(s) => no_crlf(encode_utf8(s)),
        FrameModel::Bulk(b) => b.len() <= i64::MAX,
        FrameModel::Array(items) => d > 0 && items.len() <= i64::MAX && all_encodable(
            items,
            (d - 1) as nat,
        ),
        _ => true,
    }
}

pub open spec fn all_encodable(items: Seq<FrameModel>, d: nat) -> bool
    decreases items,
{
    if items.len() == 0 {
        true
    } else {
        encodable(items[0], d) && all_encodable(items.subrange(1, items.len() as int), d)
    }
}

proof fn lemma_encode_items_concat(a: Seq<FrameModel>, b: Seq<FrameModel>)
    ensures
        encode_items(a + b) == encode_items(a) + encode_items(b),
    decreases b.len(),
{
    if b.len() == 0 {
        assert(a + b =~= a);
        assert(encode_items(a) + encode_items(b) =~= encode_items(a));
    } else {
        let b0 = b.drop_last();
        lemma_encode_items_concat(a, b0);
        assert((a + b).drop_last() =~= a + b0);
        assert((a + b).last() == b.last());
        assert(encode_items(a + b) =~= encode_items(a) + encode_items(b));
    }
}

proof fn lemma_encode_items_front(items: Seq<FrameModel>)
    requires
        items.len() > 0,
    ensures
        encode_items(items) == encode(items[0]) + encode_items(items.subrange(1, items.len() as int)),
{
    let rest = items.subrange(1, items.len() as int);
    lemma_encode_items_concat(seq![items[0]], rest);
    assert(seq![items[0]] + rest =~= items);
    let one = seq![items[0]];
    assert(one.drop_last() =~= Seq::<FrameModel>::empty());
    assert(encode_items(one) == encode_items(one.drop_last()) + encode(one.last()));
    assert(encode_items(Seq::<FrameModel>::empty()) == Seq::<u8>::empty());
    assert(encode_items(one) =~= encode(items[0]));
}

proof fn lemma_digits(v: nat)
    ensures
        digits_text(v).len() > 0,
        all_digits(digits_text(v)),
        digits_value(digits_text(v)) == v,
    decreases v,
{
    let t = digits_text(v);
    if v >= 10 {
        lemma_digits(v / 10);
        assert(t.drop_last() =~= digits_text(v / 10));
        assert(t.last() == (48 + v % 10) as u8);
        assert((t.last() - 48) as nat == v % 10);
        assert(v == (v / 10) * 10 + v % 10);
        assert forall|i: int| 0 <= i < t.len() implies is_digit(#[trigger] t[i]) by {
            if i < t.len() - 1 {
                assert(t[i] == digits_text(v / 10)[i]);
            }
        }
    } else {
        assert(t.drop_last() =~= Seq::<u8>::empty());
        assert(digits_value(t.drop_last()) == 0);
        assert(t.last() == (48 + v) as u8);
    }
}

proof fn lemma_int_text(n: int)
    requires
        i64::MIN <= n <= i64::MAX,
    ensures
        decimal_value(int_text(n)) == Some(n as i64),
        no_crlf(int_text(n)),
{
    if n < 0 {
        lemma_digits((-n) as nat);
        let t = int_text(n);
        assert(t.drop_first() =~= digits_text((-n) as nat));
    } else {
        lemma_digits(n as nat);
        let t = digits_text(n as nat);
        assert(t[0] != 45 && t[0] != 43) by {
            assert(is_digit(t[0]));
        }
    }
}

proof fn lemma_line_stop(s: Seq<u8>, i: int, e: int)
    requires
        0 <= i <= e < s.len(),
        s[e] == 13,
        forall|j: int| i <= j < e ==> s[j] != 13 && s[j] != 10,
    ensures
        line_stop(s, i) == e,
    decreases e - i,
{
    if i < e {
        lemma_line_stop(s, i + 1, e);
    }
}

/// A line made of `t` then CRLF, at `p`.
proof fn lemma_line(s: Seq<u8>, p: int, t: Seq<u8>)
    requires
        0 <= p,
        p + t.len() + 2 <= s.len(),
        s.subrange(p, p + t.len()) == t,
        s[p + t.len()] == 13,
        s[p + t.len() + 1] == 10,
        no_crlf(t),
    ensures
        line_at(s, p) == LineModel::Line(p + t.len(), p + t.len() + 2),
{
    assert forall|j: int| p <= j < p + t.len() implies s[j] != 13 && s[j] != 10 by {
        assert(s[j] == s.subrange(p, p + t.len())[j - p]);
    }
    lemma_line_stop(s, p, p + t.len());
}

/// Where `f` is encoded at `p` in `s`.
pub open spec fn encoded_at(s: Seq<u8>, p: int, x: Seq<u8>) -> bool {
    0 <= p && p + x.len() <= s.len() && s.subrange(p, p + x.len()) == x
}

proof fn lemma_split(s: Seq<u8>, p: int, a: Seq<u8>, b: Seq<u8>)
    requires
        encoded_at(s, p, a + b),
    ensures
        encoded_at(s, p, a),
        encoded_at(s, p + a.len(), b),
{
    let x = a + b;
    let w = s.subrange(p, p + x.len());
    assert(w == x);
    assert forall|i: int| 0 <= i < a.len() implies s.subrange(p, p + a.len())[i] == a[i] by {
        assert(s[p + i] == w[i]);
        assert(x[i] == a[i]);
    }
    assert(s.subrange(p, p + a.len()) =~= a);
    assert forall|i: int| 0 <= i < b.len() implies s.subrange(p + a.len(), p + a.len() + b.len())[i]
        == b[i] by {
        assert(s[p + a.len() + i] == w[a.len() + i]);
        assert(x[a.len() + i] == b[i]);
    }
    assert(s.subrange(p + a.len(), p + a.len() + b.len()) =~= b);
}

/// A frame with its header line `tag`, `head` and CRLF at `p`.
proof fn lemma_header(s: Seq<u8>, p: int, tag: u8, head: Seq<u8>, rest: Seq<u8>)
    requires
        encoded_at(s, p, seq![tag] + head + crlf() + rest),
        no_crlf(head),
    ensures
        s[p] == tag,
        line_at(s, p + 1) == LineModel::Line(p + 1 + head.len(), p + 3 + head.len()),
        s.subrange(p + 1, p + 1 + head.len()) == head,
        encoded_at(s, p + 3 + head.len(), rest),
{
    let x = seq![tag] + head + crlf() + rest;
    assert(x =~= seq![tag] + (head + (crlf() + rest)));
    lemma_split(s, p, seq![tag], head + (crlf() + rest));
    lemma_split(s, p + 1, head, crlf() + rest);
    lemma_split(s, p + 1 + head.len(), crlf(), rest);
    assert(s[p] == s.subrange(p, p + 1)[0]);
    assert(s[p + 1 + head.len()] == s.subrange(p + 1 + head.len(), p + 3 + head.len())[0]);
    assert(s[p + 2 + head.len()] == s.subrange(p + 1 + head.len(), p + 3 + head.len())[1]);
    lemma_line(s, p + 1, head);
}

/// Decoding an encoded frame gives it back and stops right after it, whatever
/// follows.
pub proof fn lemma_parse_encoded(f: FrameModel, d: nat, s: Seq<u8>, p: int)
    requires
        encodable(f, d),
        encoded_at(s, p, encode(f)),
    ensures
        parse_at(s, p, d) == ParseModel::Done(f, p + encode(f).len()),
    decreases f,
{
    match f {
        FrameModel::Simple(t) => {
            lemma_header(s, p, 43, encode_utf8(t), seq![]);
            assert(encode(f) =~= seq![43u8] + encode_utf8(t) + crlf() + seq![]);
            encode_utf8_valid_utf8(t);
            encode_utf8_decode_utf8(t);
        },
        FrameModel::Error(t) => {
            assert(encode(f) =~= seq![45u8] + encode_utf8(t) + crlf() + seq![]);
            lemma_header(s, p, 45, encode_utf8(t), seq![]);
            encode_utf8_valid_utf8(t);
            encode_utf8_decode_utf8(t);
        },
        FrameModel::Integer(n) => {
            assert(encode(f) =~= seq![58u8] + int_text(n as int) + crlf() + seq![]);
            lemma_int_text(n as int);
            lemma_header(s, p, 58, int_text(n as int), seq![]);
        },
        FrameModel::Null => {
            let head = seq![45u8, 49u8];
            assert(encode(f) =~= seq![36u8] + head + crlf() + seq![]);
            lemma_header(s, p, 36, head, seq![]);
            assert(head.drop_first() =~= seq![49u8]);
            let one = seq![49u8];
            assert(one.drop_last() =~= Seq::<u8>::empty());
            assert(digits_value(one.drop_last()) == 0);
            assert(digits_value(one) == 1);
            assert(all_digits(head.drop_first()));
            assert(decimal_value(head) == Some(-1i64));
        },
        FrameModel::Bulk(b) => {
            let head = int_text(b.len() as int);
            assert(encode(f) =~= seq![36u8] + head + crlf() + (b + crlf()));
            lemma_int_text(b.len() as int);
            lemma_header(s, p, 36, head, b + crlf());
            let next = p + 3 + head.len();
            lemma_split(s, next, b, crlf());
            assert(s[next + b.len()] == s.subrange(next + b.len(), next + b.len() + 2)[0]);
            assert(s[next + b.len() + 1] == s.subrange(next + b.len(), next + b.len() + 2)[1]);
        },
        FrameModel::Array(items) => {
            let head = int_text(items.len() as int);
            assert(encode(f) =~= seq![42u8] + head + crlf() + encode_items(items));
            lemma_int_text(items.len() as int);
            lemma_header(s, p, 42, head, encode_items(items));
            lemma_parse_encoded_items(items, (d - 1) as nat, s, p + 3 + head.len());
        },
    }
}

pub proof fn lemma_parse_encoded_items(items: Seq<FrameModel>, d: nat, s: Seq<u8>, p: int)
    requires
        all_encodable(items, d),
        encoded_at(s, p, encode_items(items)),
    ensures
        parse_items(s, p, items.len(), d) == ItemsModel::Done(items, p + encode_items(items).len()),
    decreases items,
{
    if items.len() == 0 {
        assert(items =~= seq![]);
    } else {
        let rest = items.subrange(1, items.len() as int);
        lemma_encode_items_front(items);
        lemma_split(s, p, encode(items[0]), encode_items(rest));
        lemma_parse_encoded(items[0], d, s, p);
        lemma_parse_encoded_items(rest, d, s, p + encode(items[0]).len());
        assert(rest.len() == (items.len() - 1) as nat);
        assert(seq![items[0]] + rest =~= items);
    }
}

/// Decoding the wire bytes of a frame that the codec can carry gives the
/// frame back, and takes all of those bytes.
pub proof fn lemma_round_trip(f: FrameModel)
    requires
        encodable(f, MAX_DEPTH as nat),
    ensures
        parse_at(encode(f), 0, MAX_DEPTH as nat) == ParseModel::Done(f, encode(f).len() as int),
{
    assert(encode(f).subrange(0, encode(f).len() as int) =~= encode(f));
    lemma_parse_encoded(f, MAX_DEPTH as nat, encode(f), 0);
}

/// `t` is the first bytes of `s`.
pub open spec fn is_prefix(t: Seq<u8>, s: Seq<u8>) -> bool {
    t.len() <= s.len() && t == s.subrange(0, t.len() as int)
}

proof fn lemma_line_stop_at_least(s: Seq<u8>, i: int)
    requires
        0 <= i,
    ensures
        line_stop(s, i) >= i || (i > s.len() && line_stop(s, i) == s.len()),
        line_stop(s, i) <= s.len(),
    decreases s.len() - i,
{
    if i < s.len() && !(s[i] == 13 || s[i] == 10) {
        lemma_line_stop_at_least(s, i + 1);
    }
}

proof fn lemma_line_stop_prefix(s: Seq<u8>, t: Seq<u8>, i: int)
    requires
        is_prefix(t, s),
        0 <= i <= t.len(),
    ensures
        line_stop(t, i) == if line_stop(s, i) < t.len() {
            line_stop(s, i)
        } else {
            t.len() as int
        },
    decreases t.len() - i,
{
    lemma_line_stop_at_least(s, i);
    if i < t.len() {
        assert(t[i] == s[i]);
        if !(s[i] == 13 || s[i] == 10) {
            lemma_line_stop_prefix(s, t, i + 1);
        }
    }
}

proof fn lemma_line_prefix(s: Seq<u8>, t: Seq<u8>, p: int)
    requires
        is_prefix(t, s),
        0 <= p,
        line_at(s, p) is Line,
    ensures
        line_at(s, p)->Line_1 > p,
        t.len() >= line_at(s, p)->Line_1 ==> line_at(t, p) == line_at(s, p),
        t.len() < line_at(s, p)->Line_1 ==> line_at(t, p) == LineModel::Incomplete,
{
    lemma_line_stop_at_least(s, p);
    let e = line_stop(s, p);
    if p <= t.len() {
        lemma_line_stop_prefix(s, t, p);
        if e < t.len() {
            assert(t[e] == s[e]);
            if e + 1 < t.len() {
                assert(t[e + 1] == s[e + 1]);
            }
        }
    } else {
        assert(line_stop(t, p) == t.len());
    }
}

/// On the first bytes `t` of `s`, a frame that `s` holds whole is found the
/// same when `t` holds all of it, and is incomplete when it does not.
pub proof fn lemma_parse_prefix(s: Seq<u8>, t: Seq<u8>, p: int, d: nat)
    requires
        is_prefix(t, s),
        parse_at(s, p, d) is Done,
    ensures
        parse_at(s, p, d)->Done_1 > p,
        t.len() >= parse_at(s, p, d)->Done_1 ==> parse_at(t, p, d) == parse_at(s, p, d),
        t.len() < parse_at(s, p, d)->Done_1 ==> parse_at(t, p, d) == ParseModel::Incomplete,
    decreases d, 0nat, 0nat,
{
    if p < 0 || p >= s.len() {
        return;
    }
    lemma_line_prefix(s, t, p + 1);
    let e = line_at(s, p + 1)->Line_0;
    let next = line_at(s, p + 1)->Line_1;
    let text = s.subrange(p + 1, e);
    let tag = s[p];
    if p < t.len() {
        assert(t[p] == s[p]);
    }
    if t.len() >= next {
        assert(t.subrange(p + 1, e) =~= s.subrange(p + 1, e));
    }
    if tag != 43 && tag != 45 && tag != 58 {
        let n = decimal_value(text)->Some_0;
        if n >= 0 {
            if tag == 36 {
                if t.len() >= next + n + 2 {
                    assert(t[next + n] == s[next + n]);
                    assert(t[next + n + 1] == s[next + n + 1]);
                    assert(t.subrange(next, next + n) =~= s.subrange(next, next + n));
                }
            } else {
                lemma_parse_items_prefix(s, t, next, n as nat, (d - 1) as nat);
            }
        }
    }
}

pub proof fn lemma_parse_items_prefix(s: Seq<u8>, t: Seq<u8>, p: int, n: nat, d: nat)
    requires
        is_prefix(t, s),
        parse_items(s, p, n, d) is Done,
    ensures
        parse_items(s, p, n, d)->Done_1 >= p,
        t.len() >= parse_items(s, p, n, d)->Done_1 ==> parse_items(t, p, n, d) == parse_items(
            s,
            p,
            n,
            d,
        ),
        p <= t.len() < parse_items(s, p, n, d)->Done_1 ==> parse_items(t, p, n, d)
            == ItemsModel::Incomplete,
    decreases d, 1nat, n,
{
    if n > 0 {
        lemma_parse_prefix(s, t, p, d);
        let q = parse_at(s, p, d)->Done_1;
        lemma_parse_items_prefix(s, t, q, (n - 1) as nat, d);
    }
}

/// Fed one byte at a time, the decoder finds no frame and no error until the
/// last byte of an encoded frame has come, and then finds that frame.
pub proof fn lemma_incremental(f: FrameModel, k: int)
    requires
        encodable(f, MAX_DEPTH as nat),
        0 <= k <= encode(f).len(),
    ensures
        k < encode(f).len() ==> parse_at(encode(f).subrange(0, k), 0, MAX_DEPTH as nat)
            == ParseModel::Incomplete,
        k == encode(f).len() ==> parse_at(encode(f).subrange(0, k), 0, MAX_DEPTH as nat)
            == ParseModel::Done(f, k),
{
    lemma_round_trip(f);
    let t = encode(f).subrange(0, k);
    assert(t.subrange(0, t.len() as int) =~= encode(f).subrange(0, k));
    lemma_parse_prefix(encode(f), t, 0, MAX_DEPTH as nat);
}

/// `r` sits at `q` in `s`.
pub open spec fn placed(r: Seq<u8>, s: Seq<u8>, q: int) -> bool {
    0 <= q && q + r.len() <= s.len() && s.subrange(q, q + r.len()) == r
}

proof fn lemma_placed_at(r: Seq<u8>, s: Seq<u8>, q: int, i: int)
    requires
        placed(r, s, q),
        0 <= i < r.len(),
    ensures
        s[q + i] == r[i],
{
    assert(s[q + i] == s.subrange(q, q + r.len())[i]);
}

proof fn lemma_line_stop_shift(r: Seq<u8>, s: Seq<u8>, q: int, i: int)
    requires
        placed(r, s, q),
        0 <= i <= r.len(),
        line_stop(r, i) < r.len(),
    ensures
        line_stop(s, q + i) == q + line_stop(r, i),
    decreases r.len() - i,
{
    if i < r.len() {
        lemma_placed_at(r, s, q, i);
        if !(r[i] == 13 || r[i] == 10) {
            lemma_line_stop_shift(r, s, q, i + 1);
        }
    }
}

proof fn lemma_line_shift(r: Seq<u8>, s: Seq<u8>, q: int, p: int)
    requires
        placed(r, s, q),
        0 <= p,
        line_at(r, p) is Line,
    ensures
        line_at(s, q + p) == LineModel::Line(q + line_at(r, p)->Line_0, q + line_at(r, p)->Line_1),
        p <= line_at(r, p)->Line_0,
        line_at(r, p)->Line_1 == line_at(r, p)->Line_0 + 2 <= r.len(),
{
    lemma_line_stop_at_least(r, p);
    let e = line_stop(r, p);
    lemma_line_stop_shift(r, s, q, p);
    lemma_placed_at(r, s, q, e);
    lemma_placed_at(r, s, q, e + 1);
}

/// A frame found at `p` in `r` is found the same, and ends at the same place,
/// wherever `r` sits inside a longer buffer.
pub proof fn lemma_parse_local(r: Seq<u8>, s: Seq<u8>, q: int, p: int, d: nat)
    requires
        placed(r, s, q),
        parse_at(r, p, d) is Done,
    ensures
        parse_at(r, p, d)->Done_1 <= r.len(),
        parse_at(s, q + p, d) == ParseModel::Done(
            parse_at(r, p, d)->Done_0,
            q + parse_at(r, p, d)->Done_1,
        ),
    decreases d, 0nat, 0nat,
{
    assert(0 <= p < r.len());
    lemma_placed_at(r, s, q, p);
    lemma_line_shift(r, s, q, p + 1);
    let e = line_at(r, p + 1)->Line_0;
    let next = line_at(r, p + 1)->Line_1;
    assert(s.subrange(q + p + 1, q + e) =~= r.subrange(p + 1, e)) by {
        assert forall|i: int| 0 <= i < e - p - 1 implies #[trigger] s.subrange(q + p + 1, q + e)[i]
            == r.subrange(p + 1, e)[i] by {
            lemma_placed_at(r, s, q, p + 1 + i);
        }
    }
    let tag = r[p];
    if tag != 43 && tag != 45 && tag != 58 {
        let n = decimal_value(r.subrange(p + 1, e))->Some_0;
        if n >= 0 {
            if tag == 36 {
                lemma_placed_at(r, s, q, next + n);
                lemma_placed_at(r, s, q, next + n + 1);
                assert(s.subrange(q + next, q + next + n) =~= r.subrange(next, next + n)) by {
                    assert forall|i: int| 0 <= i < n implies #[trigger] s.subrange(q + next, q + next + n)[i]
                        == r.subrange(next, next + n)[i] by {
                        lemma_placed_at(r, s, q, next + i);
                    }
                }
            } else {
                lemma_parse_items_local(r, s, q, next, n as nat, (d - 1) as nat);
            }
        }
    }
}

pub proof fn lemma_parse_items_local(r: Seq<u8>, s: Seq<u8>, q: int, p: int, n: nat, d: nat)
    requires
        placed(r, s, q),
        0 <= p <= r.len(),
        parse_items(r, p, n, d) is Done,
    ensures
        p <= parse_items(r, p, n, d)->Done_1 <= r.len(),
        parse_items(s, q + p, n, d) == ItemsModel::Done(
            parse_items(r, p, n, d)->Done_0,
            q + parse_items(r, p, n, d)->Done_1,
        ),
    decreases d, 1nat, n,
{
    if n > 0 {
        lemma_parse_local(r, s, q, p, d);
        assert(r.subrange(0, r.len() as int) =~= r);
        lemma_parse_prefix(r, r, p, d);
        let first_end = parse_at(r, p, d)->Done_1;
        lemma_parse_items_local(r, s, q, first_end, (n - 1) as nat, d);
    }
}

} // verus!
