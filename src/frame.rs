//! The frame data model, its wire encoding, and a two-phase decoder
//! (`check` finds where a frame ends without copying, `parse` builds it).
use vstd::prelude::*;
use vstd::utf8::*;
use vstd::slice::slice_subrange;
use vstd::slice::slice_to_vec;

verus! {

broadcast use vstd::std_specs::vec::group_vec_axioms;

/// One protocol message. The text of `Simple` and `Error` must not hold the
/// delimiter (see `well_formed`); the length of `Bulk` and the count of
/// `Array` are taken from the payload when written.
#[derive(Debug, PartialEq, Eq)]
pub enum Frame {
    /// A short status text: `+text\r\n`.
    Simple(String),
    /// A short failure text: `-text\r\n`.
    Error(String),
    /// An unsigned 64-bit number: `:digits\r\n`.
    Integer(u64),
    /// No value: `$-1\r\n`.
    Null,
    /// Any bytes: `$length\r\n`, the bytes, `\r\n`.
    Bulk(Vec<u8>),
    /// Frames in order: `*count\r\n`, then each frame.
    Array(Vec<Frame>),
}

/// The mathematical value of a frame.
pub enum FrameModel {
    Simple(Seq<char>),
    Error(Seq<char>),
    Integer(u64),
    Null,
    Bulk(Seq<u8>),
    Array(Seq<FrameModel>),
}

impl View for Frame {
    type V = FrameModel;

    open spec fn view(&self) -> FrameModel
        decreases self,
    {
        match self {
            Frame::Simple(s) => FrameModel::Simple(s@),
            Frame::Error(s) => FrameModel::Error(s@),
            Frame::Integer(n) => FrameModel::Integer(*n),
            Frame::Null => FrameModel::Null,
            Frame::Bulk(b) => FrameModel::Bulk(b@),
            Frame::Array(items) => {
                proof {
                    assert(decreases_to!(items => items@));
                }
                FrameModel::Array(models_of(items@))
            },
        }
    }
}

/// The values of a run of frames.
pub open spec fn models_of(items: Seq<Frame>) -> Seq<FrameModel>
    decreases items,
{
    if items.len() == 0 {
        seq![]
    } else {
        seq![items[0]@] + models_of(items.drop_first())
    }
}

/// `models_of` lists the value of each frame, in order.
pub proof fn lemma_models_of(items: Seq<Frame>)
    ensures
        models_of(items) == frame_models(items),
    decreases items.len(),
{
    if items.len() > 0 {
        let rest = items.drop_first();
        lemma_models_of(rest);
        assert(models_of(items) == seq![items[0]@] + models_of(rest));
        assert(models_of(items).len() == items.len());
        assert forall|i: int| 0 <= i < items.len() implies models_of(items)[i] == items[i]@ by {
            if i > 0 {
                assert(rest[i - 1] == items[i]);
                assert(models_of(rest)[i - 1] == rest[i - 1]@);
            }
        }
    }
    assert(models_of(items) =~= frame_models(items));
}

/// The values of a run of frames, element by element.
pub open spec fn frame_models(items: Seq<Frame>) -> Seq<FrameModel> {
    Seq::new(items.len(), |i: int| items[i]@)
}

/// Carriage return, the first byte of the delimiter.
pub const CR: u8 = 13;
/// Line feed, the second byte of the delimiter.
pub const LF: u8 = 10;
/// The digit zero.
pub const ZERO: u8 = 48;
/// First byte of a simple-string frame, `+`.
pub const TAG_SIMPLE: u8 = 43;
/// First byte of an error frame, `-`; also the sign of the null length.
pub const TAG_ERROR: u8 = 45;
/// First byte of an integer frame, `:`.
pub const TAG_INTEGER: u8 = 58;
/// First byte of a bulk or null frame, `$`.
pub const TAG_BULK: u8 = 36;
/// First byte of an array frame, `*`.
pub const TAG_ARRAY: u8 = 42;

/// The two-byte line delimiter.
pub open spec fn crlf() -> Seq<u8> {
    seq![CR, LF]
}

/// The wire form of a Null frame.
pub open spec fn null_bytes() -> Seq<u8> {
    seq![TAG_BULK, TAG_ERROR, 49u8, CR, LF]
}

/// ASCII decimal digits of `n`, without leading zeros.
pub open spec fn decimal(n: nat) -> Seq<u8>
    decreases n,
{
    if n < 10 {
        seq![(ZERO + n) as u8]
    } else {
        decimal(n / 10).push((ZERO + n % 10) as u8)
    }
}

pub open spec fn is_digit(c: u8) -> bool {
    ZERO <= c <= 57
}

/// The number that a string of digits spells, read left to right.
pub open spec fn digits_value(d: Seq<u8>) -> nat
    decreases d.len(),
{
    if d.len() == 0 {
        0
    } else {
        digits_value(d.drop_last()) * 10 + (d.last() - ZERO) as nat
    }
}

/// A decimal field: digits only, no leading zero but in "0", and fits in 64 bits.
pub open spec fn is_decimal(d: Seq<u8>) -> bool {
    &&& d.len() > 0
    &&& forall|i: int| 0 <= i < d.len() ==> is_digit(#[trigger] d[i])
    &&& (d[0] == ZERO ==> d.len() == 1)
    &&& digits_value(d) <= u64::MAX
}

/// Whether the line delimiter occurs in `b`.
pub open spec fn has_crlf(b: Seq<u8>) -> bool {
    exists|i: int| 0 <= i < b.len() - 1 && #[trigger] b[i] == CR && b[i + 1] == LF
}

/// The wire encoding of a frame. An array is its element count as a header
/// line, then each element's own encoding, with nothing after the last one.
pub open spec fn encode(f: FrameModel) -> Seq<u8>
    decreases f,
{
    match f {
        FrameModel::Simple(s) => seq![TAG_SIMPLE] + encode_utf8(s) + crlf(),
        FrameModel::Error(s) => seq![TAG_ERROR] + encode_utf8(s) + crlf(),
        FrameModel::Integer(n) => seq![TAG_INTEGER] + decimal(n as nat) + crlf(),
        FrameModel::Null => null_bytes(),
        FrameModel::Bulk(b) => seq![TAG_BULK] + decimal(b.len()) + crlf() + b + crlf(),
        FrameModel::Array(items) => seq![TAG_ARRAY] + decimal(items.len()) + crlf() + encode_all(
            items,
        ),
    }
}

/// The encodings of `items`, one after another.
pub open spec fn encode_all(items: Seq<FrameModel>) -> Seq<u8>
    decreases items,
{
    if items.len() == 0 {
        seq![]
    } else {
        encode(items[0]) + encode_all(items.drop_first())
    }
}

/// A frame that can be written and read back: no text holds the delimiter.
pub open spec fn well_formed(f: FrameModel) -> bool
    decreases f,
{
    match f {
        FrameModel::Simple(s) => !has_crlf(encode_utf8(s)),
        FrameModel::Error(s) => !has_crlf(encode_utf8(s)),
        FrameModel::Bulk(b) => b.len() <= u64::MAX,
        FrameModel::Array(items) => items.len() <= u64::MAX && forall|i: int|
            0 <= i < items.len() ==> well_formed(#[trigger] items[i]),
        _ => true,
    }
}

/// The digits of `n` form a decimal field (when `n` fits in 64 bits) that reads back as `n`.
pub proof fn lemma_decimal(n: nat)
    ensures
        is_decimal(decimal(n)) || n > u64::MAX,
        decimal(n).len() > 0,
        forall|i: int| 0 <= i < decimal(n).len() ==> is_digit(#[trigger] decimal(n)[i]),
        digits_value(decimal(n)) == n,
        decimal(n)[0] == ZERO ==> n == 0 && decimal(n).len() == 1,
    decreases n,
{
    let d = decimal(n);
    if n >= 10 {
        lemma_decimal(n / 10);
        assert(d.drop_last() =~= decimal(n / 10));
        assert(d.last() == (ZERO + n % 10) as u8);
        assert(digits_value(d) == (n / 10) * 10 + n % 10);
    } else {
        assert(d.drop_last() =~= Seq::<u8>::empty());
        assert(digits_value(d) == digits_value(d.drop_last()) * 10 + (d.last() - ZERO) as nat);
    }
}

/// Encoding one more frame appends its encoding.
pub proof fn lemma_encode_all_push(items: Seq<FrameModel>, f: FrameModel)
    ensures
        encode_all(items.push(f)) == encode_all(items) + encode(f),
    decreases items.len(),
{
    if items.len() == 0 {
        assert(items.push(f).drop_first() =~= Seq::<FrameModel>::empty());
        assert(encode_all(items.push(f).drop_first()) =~= Seq::<u8>::empty());
        assert(encode_all(items.push(f)) =~= encode_all(items) + encode(f));
    } else {
        lemma_encode_all_push(items.drop_first(), f);
        assert(items.push(f).drop_first() =~= items.drop_first().push(f));
        assert(encode_all(items.push(f)) =~= encode_all(items) + encode(f));
    }
}

/// Appends every byte of `b` to `out`.
fn push_all(out: &mut Vec<u8>, b: &[u8])
    ensures
        final(out)@ == old(out)@ + b@,
{
    let mut i: usize = 0;
    while i < b.len()
        invariant
            i <= b@.len(),
            out@ == old(out)@ + b@.subrange(0, i as int),
        decreases b.len() - i,
    {
        out.push(b[i]);
        i = i + 1;
        assert(out@ =~= old(out)@ + b@.subrange(0, i as int));
    }
    assert(b@.subrange(0, i as int) =~= b@);
}

/// Appends the digits of `n`.
fn push_digits(n: u64, out: &mut Vec<u8>)
    ensures
        final(out)@ == old(out)@ + decimal(n as nat),
    decreases n,
{
    if n >= 10 {
        push_digits(n / 10, out);
    }
    out.push(ZERO + (n % 10) as u8);
    proof {
        if n >= 10 {
            assert(decimal(n as nat) == decimal((n / 10) as nat).push((ZERO + n % 10) as u8));
        }
        assert(out@ =~= old(out)@ + decimal(n as nat));
    }
}

/// Appends the decimal form of `val` followed by the line delimiter.
pub fn write_decimal(val: u64, out: &mut Vec<u8>)
    ensures
        final(out)@ == old(out)@ + decimal(val as nat) + crlf(),
{
    push_digits(val, out);
    out.push(CR);
    out.push(LF);
    assert(out@ =~= old(out)@ + decimal(val as nat) + crlf());
}

/// Appends a text payload between its tag and the delimiter.
fn write_line(tag: u8, text: &String, out: &mut Vec<u8>)
    ensures
        final(out)@ == old(out)@ + (seq![tag] + encode_utf8(text@) + crlf()),
{
    out.push(tag);
    push_all(out, text.as_str().as_bytes());
    out.push(CR);
    out.push(LF);
    assert(out@ =~= old(out)@ + (seq![tag] + encode_utf8(text@) + crlf()));
}

impl Frame {
    /// Appends the wire encoding of this frame to `out`.
    pub fn encode(&self, out: &mut Vec<u8>)
        ensures
            final(out)@ == old(out)@ + encode(self@),
        decreases self,
    {
        match self {
            Frame::Simple(s) => write_line(TAG_SIMPLE, s, out),
            Frame::Error(s) => write_line(TAG_ERROR, s, out),
            Frame::Integer(n) => {
                out.push(TAG_INTEGER);
                write_decimal(*n, out);
                assert(out@ =~= old(out)@ + encode(self@));
            },
            Frame::Null => {
                out.push(TAG_BULK);
                out.push(TAG_ERROR);
                out.push(49u8);
                out.push(CR);
                out.push(LF);
                assert(out@ =~= old(out)@ + encode(self@));
            },
            Frame::Bulk(b) => {
                out.push(TAG_BULK);
                write_decimal(b.len() as u64, out);
                push_all(out, b.as_slice());
                out.push(CR);
                out.push(LF);
                assert(out@ =~= old(out)@ + encode(self@));
            },
            Frame::Array(items) => {
                out.push(TAG_ARRAY);
                write_decimal(items.len() as u64, out);
                let ghost start = out@;
                let ghost models = Seq::new(
                    items.len() as nat,
                    |i: int|
                        if 0 <= i < items.len() {
                            items[i]@
                        } else {
                            FrameModel::Null
                        },
                );
                let mut i: usize = 0;
                while i < items.len()
                    invariant
                        i <= items.len(),
                        *self == Frame::Array(*items),
                        models.len() == items.len(),
                        forall|j: int| 0 <= j < items.len() ==> models[j] == (#[trigger] items[j])@,
                        out@ == start + encode_all(models.take(i as int)),
                    decreases items.len() - i,
                {
                    proof {
                        assert(decreases_to!(items => items[i as int]));
                        assert(decreases_to!(*self => self->Array_0));
                    }
                    items[i].encode(out);
                    proof {
                        lemma_encode_all_push(models.take(i as int), models[i as int]);
                        assert(models.take(i as int).push(models[i as int]) =~= models.take(
                            i + 1,
                        ));
                    }
                    i = i + 1;
                }
                assert(models.take(i as int) =~= models);
                proof {
                    lemma_models_of(items@);
                }
                assert(self@->Array_0 =~= models);
                assert(out@ =~= old(out)@ + encode(self@));
            },
        }
    }
}

/// What a decoder finds at a position of a byte sequence.
pub enum Scan {
    /// A whole frame, and the position just past it.
    Complete(FrameModel, int),
    /// The bytes end before the frame does.
    Incomplete,
    /// The bytes break the encoding.
    Malformed,
}

/// What a decoder finds for a run of consecutive frames.
pub enum ScanItems {
    Complete(Seq<FrameModel>, int),
    Incomplete,
    Malformed,
}

/// The position of the first delimiter at or after `from`, if any.
pub open spec fn line_end(b: Seq<u8>, from: int) -> Option<int>
    decreases b.len() - from,
{
    if from < 0 || from + 1 >= b.len() {
        None
    } else if b[from] == CR && b[from + 1] == LF {
        Some(from)
    } else {
        line_end(b, from + 1)
    }
}

/// How many bytes of `b` lie at or after `pos`.
pub open spec fn remaining(b: Seq<u8>, pos: int) -> int {
    if pos <= b.len() {
        b.len() - pos
    } else {
        0
    }
}

/// A delimiter that is found lies at or after the start of the search, inside the bytes.
pub proof fn lemma_line_end_bounds(b: Seq<u8>, from: int)
    ensures
        line_end(b, from) matches Some(e) ==> from <= e && e + 1 < b.len() && b[e] == CR && b[e
            + 1] == LF,
    decreases b.len() - from,
{
    if !(from < 0 || from + 1 >= b.len()) && !(b[from] == CR && b[from + 1] == LF) {
        lemma_line_end_bounds(b, from + 1);
    }
}

/// Decodes one frame starting at `pos`.
pub open spec fn scan_at(b: Seq<u8>, pos: int) -> Scan
    decreases remaining(b, pos), 0int, 0int,
{
    if pos < 0 || pos >= b.len() {
        Scan::Incomplete
    } else {
        let tag = b[pos];
        if tag != TAG_SIMPLE && tag != TAG_ERROR && tag != TAG_INTEGER && tag != TAG_BULK && tag
            != TAG_ARRAY {
            Scan::Malformed
        } else {
            match line_end(b, pos + 1) {
                None => Scan::Incomplete,
                Some(e) => {
                    let line = b.subrange(pos + 1, e);
                    let next = e + 2;
                    if tag == TAG_SIMPLE || tag == TAG_ERROR {
                        if !valid_utf8(line) {
                            Scan::Malformed
                        } else if tag == TAG_SIMPLE {
                            Scan::Complete(FrameModel::Simple(decode_utf8(line)), next)
                        } else {
                            Scan::Complete(FrameModel::Error(decode_utf8(line)), next)
                        }
                    } else if tag == TAG_BULK && line == seq![TAG_ERROR, 49u8] {
                        Scan::Complete(FrameModel::Null, next)
                    } else if !is_decimal(line) {
                        Scan::Malformed
                    } else if tag == TAG_INTEGER {
                        Scan::Complete(FrameModel::Integer(digits_value(line) as u64), next)
                    } else if tag == TAG_BULK {
                        let n = digits_value(line) as int;
                        if next + n + 2 > b.len() {
                            Scan::Incomplete
                        } else if b[next + n] == CR && b[next + n + 1] == LF {
                            Scan::Complete(
                                FrameModel::Bulk(b.subrange(next, next + n)),
                                next + n + 2,
                            )
                        } else {
                            Scan::Malformed
                        }
                    } else {
                        proof {
                            lemma_line_end_bounds(b, pos + 1);
                        }
                        array_of(scan_items(b, next, digits_value(line)))
                    }
                },
            }
        }
    }
}

/// The outcome for an array whose elements have the outcome `s`.
pub open spec fn array_of(s: ScanItems) -> Scan {
    match s {
        ScanItems::Complete(items, end) => Scan::Complete(FrameModel::Array(items), end),
        ScanItems::Incomplete => Scan::Incomplete,
        ScanItems::Malformed => Scan::Malformed,
    }
}

/// Decodes `count` consecutive frames starting at `pos`.
pub open spec fn scan_items(b: Seq<u8>, pos: int, count: nat) -> ScanItems
    decreases remaining(b, pos), 1int, count,
{
    if count == 0 {
        ScanItems::Complete(seq![], pos)
    } else {
        match scan_at(b, pos) {
            Scan::Complete(f, e) => {
                if e <= pos {
                    ScanItems::Malformed
                } else {
                    match scan_items(b, e, (count - 1) as nat) {
                        ScanItems::Complete(fs, end) => ScanItems::Complete(seq![f] + fs, end),
                        ScanItems::Incomplete => ScanItems::Incomplete,
                        ScanItems::Malformed => ScanItems::Malformed,
                    }
                }
            },
            Scan::Incomplete => ScanItems::Incomplete,
            Scan::Malformed => ScanItems::Malformed,
        }
    }
}

/// Decodes the frame at the start of `b`.
pub open spec fn decode(b: Seq<u8>) -> Scan {
    scan_at(b, 0)
}

/// `digits_value` never shrinks as a digit string grows.
pub proof fn lemma_digits_prefix(d: Seq<u8>, k: int)
    requires
        0 <= k <= d.len(),
        forall|i: int| 0 <= i < d.len() ==> is_digit(#[trigger] d[i]),
    ensures
        digits_value(d.subrange(0, k)) <= digits_value(d),
    decreases d.len(),
{
    if k < d.len() {
        let p = d.drop_last();
        assert(forall|i: int| 0 <= i < p.len() ==> p[i] == d[i]);
        lemma_digits_prefix(p, k);
        assert(p.subrange(0, k) =~= d.subrange(0, k));
    } else {
        assert(d.subrange(0, k) =~= d);
    }
}

/// Relies on std::str::from_utf8: it accepts exactly the valid UTF-8 byte
/// sequences and yields, without copying, the characters they encode.
#[verifier::external_body]
fn utf8_text(b: &[u8]) -> (r: Option<&str>)
    ensures
        r is Some <==> valid_utf8(b@),
        r matches Some(t) ==> t@ == decode_utf8(b@),
{
    std::str::from_utf8(b).ok()
}

/// Finds the first delimiter at or after `from`.
fn find_line_end(buf: &[u8], from: usize) -> (r: Option<usize>)
    ensures
        match r {
            Some(e) => line_end(buf@, from as int) == Some(e as int),
            None => line_end(buf@, from as int) is None,
        },
{
    let mut i: usize = from;
    while i < buf.len() && buf.len() - i >= 2
        invariant
            from <= i,
            line_end(buf@, from as int) == line_end(buf@, i as int),
        decreases buf.len() - i,
    {
        if buf[i] == CR && buf[i + 1] == LF {
            return Some(i);
        }
        i = i + 1;
    }
    None
}

/// Reads the decimal field `buf[start..end]`.
fn read_decimal(buf: &[u8], start: usize, end: usize) -> (r: Option<u64>)
    requires
        start <= end <= buf@.len(),
    ensures
        match r {
            Some(v) => is_decimal(buf@.subrange(start as int, end as int)) && v == digits_value(
                buf@.subrange(start as int, end as int),
            ),
            None => !is_decimal(buf@.subrange(start as int, end as int)),
        },
{
    let ghost line = buf@.subrange(start as int, end as int);
    if start == end {
        return None;
    }
    if buf[start] == ZERO && end - start > 1 {
        return None;
    }
    let mut acc: u64 = 0;
    let mut i: usize = start;
    assert(buf@.subrange(start as int, start as int) =~= Seq::<u8>::empty());
    while i < end
        invariant
            start <= i <= end <= buf@.len(),
            line == buf@.subrange(start as int, end as int),
            forall|j: int| start <= j < i ==> is_digit(#[trigger] buf@[j]),
            acc == digits_value(buf@.subrange(start as int, i as int)),
        decreases end - i,
    {
        let c = buf[i];
        if c < ZERO || c > 57 {
            assert(!is_digit(line[i - start]));
            return None;
        }
        let d: u64 = (c - ZERO) as u64;
        let ghost grown = buf@.subrange(start as int, i + 1);
        assert(grown.drop_last() =~= buf@.subrange(start as int, i as int));
        if acc > (u64::MAX - d) / 10 {
            proof {
                assert(acc * 10 + d > u64::MAX) by (nonlinear_arith)
                    requires
                        acc > (u64::MAX - d) / 10,
                        d <= 9,
                ;
                if forall|j: int| 0 <= j < line.len() ==> is_digit(#[trigger] line[j]) {
                    lemma_digits_prefix(line, i + 1 - start);
                    assert(line.subrange(0, i + 1 - start) =~= grown);
                }
            }
            return None;
        }
        proof {
            assert(acc * 10 + d <= u64::MAX) by (nonlinear_arith)
                requires
                    acc <= (u64::MAX - d) / 10,
                    d <= 9,
            ;
        }
        acc = acc * 10 + d;
        i = i + 1;
    }
    assert(buf@.subrange(start as int, i as int) =~= line);
    Some(acc)
}

/// The result of `check`: where the first frame ends, or why none is found.
#[derive(Debug, Clone, Copy, PartialEq, Eq)]
pub enum Checked {
    Complete(usize),
    Incomplete,
    Malformed,
}

/// The result of `parse`: the first frame and where it ends, or why none is found.
#[derive(Debug, PartialEq, Eq)]
pub enum Parsed {
    Complete(Frame, usize),
    Incomplete,
    Malformed,
}

/// `r` reports the outcome `s`, ignoring the decoded value.
pub open spec fn check_agrees(r: Checked, s: Scan) -> bool {
    match s {
        Scan::Complete(_, e) => r matches Checked::Complete(n) && n == e,
        Scan::Incomplete => r is Incomplete,
        Scan::Malformed => r is Malformed,
    }
}

/// `r` reports the outcome `s`, with the decoded value.
pub open spec fn parse_agrees(r: Parsed, s: Scan) -> bool {
    match s {
        Scan::Complete(f, e) => r matches Parsed::Complete(fr, n) && fr@ == f && n == e,
        Scan::Incomplete => r is Incomplete,
        Scan::Malformed => r is Malformed,
    }
}

/// The outcome of a run of frames with the decoded values left out.
pub open spec fn items_shape(s: ScanItems) -> ScanItems {
    match s {
        ScanItems::Complete(_, e) => ScanItems::Complete(seq![], e),
        other => other,
    }
}

/// The outcome `s` with `fs` decoded in front of it.
pub open spec fn items_after(fs: Seq<FrameModel>, s: ScanItems) -> ScanItems {
    match s {
        ScanItems::Complete(gs, e) => ScanItems::Complete(fs + gs, e),
        other => other,
    }
}

/// Whether `tag` opens one of the frame kinds.
fn is_tag(tag: u8) -> (r: bool)
    ensures
        r == (tag == TAG_SIMPLE || tag == TAG_ERROR || tag == TAG_INTEGER || tag == TAG_BULK
            || tag == TAG_ARRAY),
{
    tag == TAG_SIMPLE || tag == TAG_ERROR || tag == TAG_INTEGER || tag == TAG_BULK || tag
        == TAG_ARRAY
}

/// Finds where the frame at `pos` ends, without copying any of it.
fn check_at(buf: &[u8], pos: usize) -> (r: Checked)
    ensures
        check_agrees(r, scan_at(buf@, pos as int)),
        r matches Checked::Complete(n) ==> pos < n <= buf@.len(),
    decreases remaining(buf@, pos as int),
{
    let ghost b = buf@;
    if pos >= buf.len() {
        return Checked::Incomplete;
    }
    let tag = buf[pos];
    if !is_tag(tag) {
        return Checked::Malformed;
    }
    let e = match find_line_end(buf, pos + 1) {
        None => {
            return Checked::Incomplete;
        },
        Some(e) => e,
    };
    proof {
        lemma_line_end_bounds(b, pos + 1);
    }
    let next = e + 2;
    let ghost line = b.subrange(pos + 1, e as int);
    if tag == TAG_SIMPLE || tag == TAG_ERROR {
        return match utf8_text(slice_subrange(buf, pos + 1, e)) {
            None => Checked::Malformed,
            Some(_) => Checked::Complete(next),
        };
    }
    if tag == TAG_BULK && e - pos == 3 && buf[pos + 1] == TAG_ERROR && buf[pos + 2] == 49 {
        assert(line =~= seq![TAG_ERROR, 49u8]);
        return Checked::Complete(next);
    }
    let n = match read_decimal(buf, pos + 1, e) {
        None => {
            return Checked::Malformed;
        },
        Some(n) => n,
    };
    if tag == TAG_INTEGER {
        return Checked::Complete(next);
    }
    if tag == TAG_BULK {
        let avail = buf.len() - next;
        if avail < 2 || n > (avail - 2) as u64 {
            return Checked::Incomplete;
        }
        let end = next + n as usize;
        if buf[end] == CR && buf[end + 1] == LF {
            return Checked::Complete(end + 2);
        }
        return Checked::Malformed;
    }
    let mut p: usize = next;
    let mut k: u64 = 0;
    while k < n
        invariant
            pos < next <= p <= buf@.len(),
            pos < buf@.len(),
            buf@ == b,
            k <= n,
            scan_at(b, pos as int) == array_of(scan_items(b, next as int, n as nat)),
            items_shape(scan_items(b, next as int, n as nat)) == items_shape(
                scan_items(b, p as int, (n - k) as nat),
            ),
        decreases n - k,
    {
        match check_at(buf, p) {
            Checked::Complete(q) => {
                if q <= p {
                    return Checked::Malformed;
                }
                p = q;
            },
            Checked::Incomplete => {
                return Checked::Incomplete;
            },
            Checked::Malformed => {
                return Checked::Malformed;
            },
        }
        k = k + 1;
    }
    Checked::Complete(p)
}

/// An array frame of `items`.
fn array_frame(items: Vec<Frame>) -> (r: Frame)
    ensures
        r@ == FrameModel::Array(frame_models(items@)),
{
    proof {
        lemma_array_view(items);
    }
    Frame::Array(items)
}

/// The value of an array frame lists the values of its elements.
proof fn lemma_array_view(items: Vec<Frame>)
    ensures
        Frame::Array(items)@ == FrameModel::Array(frame_models(items@)),
{
    lemma_models_of(items@);
}

/// Builds the frame at `pos`, checking the encoding as it goes.
fn parse_at(buf: &[u8], pos: usize) -> (r: Parsed)
    ensures
        parse_agrees(r, scan_at(buf@, pos as int)),
    decreases remaining(buf@, pos as int),
{
    let ghost b = buf@;
    if pos >= buf.len() {
        return Parsed::Incomplete;
    }
    let tag = buf[pos];
    if !is_tag(tag) {
        return Parsed::Malformed;
    }
    let e = match find_line_end(buf, pos + 1) {
        None => {
            return Parsed::Incomplete;
        },
        Some(e) => e,
    };
    proof {
        lemma_line_end_bounds(b, pos + 1);
    }
    let next = e + 2;
    let ghost line = b.subrange(pos + 1, e as int);
    if tag == TAG_SIMPLE || tag == TAG_ERROR {
        return match utf8_text(slice_subrange(buf, pos + 1, e)) {
            None => Parsed::Malformed,
            Some(t) => {
                let text = t.to_owned();
                if tag == TAG_SIMPLE {
                    Parsed::Complete(Frame::Simple(text), next)
                } else {
                    Parsed::Complete(Frame::Error(text), next)
                }
            },
        };
    }
    if tag == TAG_BULK && e - pos == 3 && buf[pos + 1] == TAG_ERROR && buf[pos + 2] == 49 {
        assert(line =~= seq![TAG_ERROR, 49u8]);
        return Parsed::Complete(Frame::Null, next);
    }
    let n = match read_decimal(buf, pos + 1, e) {
        None => {
            return Parsed::Malformed;
        },
        Some(n) => n,
    };
    if tag == TAG_INTEGER {
        return Parsed::Complete(Frame::Integer(n), next);
    }
    if tag == TAG_BULK {
        let avail = buf.len() - next;
        if avail < 2 || n > (avail - 2) as u64 {
            return Parsed::Incomplete;
        }
        let end = next + n as usize;
        if buf[end] == CR && buf[end + 1] == LF {
            let payload = slice_to_vec(slice_subrange(buf, next, end));
            return Parsed::Complete(Frame::Bulk(payload), end + 2);
        }
        return Parsed::Malformed;
    }
    let mut items: Vec<Frame> = Vec::new();
    let mut p: usize = next;
    let mut k: u64 = 0;
    while k < n
        invariant
            pos < next <= p,
            pos < buf@.len(),
            buf@ == b,
            k <= n,
            items@.len() == k,
            scan_at(b, pos as int) == array_of(scan_items(b, next as int, n as nat)),
            scan_items(b, next as int, n as nat) == items_after(
                frame_models(items@),
                scan_items(b, p as int, (n - k) as nat),
            ),
        decreases n - k,
    {
        match parse_at(buf, p) {
            Parsed::Complete(f, q) => {
                if q <= p {
                    return Parsed::Malformed;
                }
                let ghost rest = scan_items(b, q as int, (n - k - 1) as nat);
                proof {
                    if rest is Complete {
                        let gs = rest->Complete_0;
                        assert(frame_models(items@) + (seq![f@] + gs) =~= frame_models(
                            items@.push(f),
                        ) + gs);
                    }
                }
                items.push(f);
                p = q;
            },
            Parsed::Incomplete => {
                return Parsed::Incomplete;
            },
            Parsed::Malformed => {
                return Parsed::Malformed;
            },
        }
        k = k + 1;
    }
    let ghost models = frame_models(items@);
    assert(models + seq![] =~= models);
    let frame = array_frame(items);
    Parsed::Complete(frame, p)
}

impl Frame {
    /// Builds the frame at the start of `buf`, checking the encoding as it goes.
    pub fn parse(buf: &[u8]) -> (r: Parsed)
        ensures
            parse_agrees(r, decode(buf@)),
    {
        parse_at(buf, 0)
    }

    /// Finds where the frame at the start of `buf` ends, without copying.
    pub fn check(buf: &[u8]) -> (r: Checked)
        ensures
            check_agrees(r, decode(buf@)),
            r matches Checked::Complete(n) ==> 0 < n <= buf@.len(),
    {
        check_at(buf, 0)
    }
}

/// What is known of the bytes of `x + y` at `pos`, split into `x` and `y`.
proof fn lemma_split(b: Seq<u8>, pos: int, x: Seq<u8>, y: Seq<u8>)
    requires
        0 <= pos,
        pos + x.len() + y.len() <= b.len(),
        b.subrange(pos, pos + x.len() + y.len()) == x + y,
    ensures
        b.subrange(pos, pos + x.len()) == x,
        b.subrange(pos + x.len(), pos + x.len() + y.len()) == y,
{
    assert forall|i: int| 0 <= i < x.len() implies b[pos + i] == x[i] by {
        assert(b.subrange(pos, pos + x.len() + y.len())[i] == (x + y)[i]);
        assert((x + y)[i] == x[i]);
    }
    assert forall|i: int| 0 <= i < y.len() implies b[pos + x.len() + i] == y[i] by {
        assert(b.subrange(pos, pos + x.len() + y.len())[x.len() + i] == (x + y)[x.len() + i]);
        assert((x + y)[x.len() + i] == y[i]);
    }
    assert(b.subrange(pos, pos + x.len()) =~= x);
    assert(b.subrange(pos + x.len(), pos + x.len() + y.len()) =~= y);
}

/// The first delimiter at or after `from` is at `k` when none comes earlier.
proof fn lemma_line_end_at(b: Seq<u8>, from: int, k: int)
    requires
        0 <= from <= k,
        k + 1 < b.len(),
        b[k] == CR && b[k + 1] == LF,
        forall|j: int| from <= j < k ==> !(#[trigger] b[j] == CR && b[j + 1] == LF),
    ensures
        line_end(b, from) == Some(k),
    decreases k - from,
{
    if from < k {
        lemma_line_end_at(b, from + 1, k);
    }
}

/// A line `tag, line, CR, LF` at `pos` is found, when `line` holds no delimiter.
proof fn lemma_header(b: Seq<u8>, pos: int, tag: u8, line: Seq<u8>)
    requires
        0 <= pos,
        pos + line.len() + 3 <= b.len(),
        b.subrange(pos, pos + line.len() + 3) == seq![tag] + line + crlf(),
        !has_crlf(line),
    ensures
        b[pos] == tag,
        line_end(b, pos + 1) == Some(pos + 1 + line.len()),
        b.subrange(pos + 1, pos + 1 + line.len()) == line,
{
    let k = pos + 1 + line.len();
    lemma_split(b, pos, seq![tag] + line, crlf());
    lemma_split(b, pos, seq![tag], line);
    assert(b.subrange(pos, pos + 1)[0] == tag);
    assert(b.subrange(k, k + 2)[0] == CR);
    assert(b.subrange(k, k + 2)[1] == LF);
    assert forall|j: int| pos + 1 <= j < k implies !(#[trigger] b[j] == CR && b[j + 1] == LF) by {
        assert(b.subrange(pos + 1, k)[j - pos - 1] == b[j]);
        if j + 1 < k {
            assert(b.subrange(pos + 1, k)[j - pos] == b[j + 1]);
        }
    }
    lemma_line_end_at(b, pos + 1, k);
}

/// A decimal field holds no delimiter and is not the null marker.
proof fn lemma_decimal_line(n: nat)
    requires
        n <= u64::MAX,
    ensures
        is_decimal(decimal(n)),
        digits_value(decimal(n)) == n,
        !has_crlf(decimal(n)),
        decimal(n) != seq![TAG_ERROR, 49u8],
{
    lemma_decimal(n);
    let d = decimal(n);
    assert(is_digit(d[0]));
    if has_crlf(d) {
        let i = choose|i: int| 0 <= i < d.len() - 1 && #[trigger] d[i] == CR && d[i + 1] == LF;
        assert(is_digit(d[i]));
    }
}

/// An encoded frame at `pos` decodes to itself, whatever follows it.
pub proof fn lemma_scan_encoded(f: FrameModel, b: Seq<u8>, pos: int)
    requires
        well_formed(f),
        0 <= pos,
        pos + encode(f).len() <= b.len(),
        b.subrange(pos, pos + encode(f).len()) == encode(f),
    ensures
        scan_at(b, pos) == Scan::Complete(f, pos + encode(f).len()),
    decreases f,
{
    match f {
        FrameModel::Simple(t) => {
            let line = encode_utf8(t);
            lemma_header(b, pos, TAG_SIMPLE, line);
            encode_utf8_valid_utf8(t);
            encode_utf8_decode_utf8(t);
        },
        FrameModel::Error(t) => {
            let line = encode_utf8(t);
            lemma_header(b, pos, TAG_ERROR, line);
            encode_utf8_valid_utf8(t);
            encode_utf8_decode_utf8(t);
        },
        FrameModel::Integer(n) => {
            lemma_decimal_line(n as nat);
            lemma_header(b, pos, TAG_INTEGER, decimal(n as nat));
        },
        FrameModel::Null => {
            let line = seq![TAG_ERROR, 49u8];
            assert(null_bytes() =~= seq![TAG_BULK] + line + crlf());
            assert(!has_crlf(line)) by {
                if has_crlf(line) {
                    let i = choose|i: int|
                        0 <= i < line.len() - 1 && #[trigger] line[i] == CR && line[i + 1] == LF;
                }
            }
            lemma_header(b, pos, TAG_BULK, line);
        },
        FrameModel::Bulk(data) => {
            let line = decimal(data.len());
            let head = seq![TAG_BULK] + line + crlf();
            lemma_decimal_line(data.len());
            assert(encode(f) == head + (data + crlf()));
            lemma_split(b, pos, head, data + crlf());
            lemma_header(b, pos, TAG_BULK, line);
            let next = pos + head.len();
            lemma_split(b, next, data, crlf());
            assert(b.subrange(next + data.len(), next + data.len() + 2)[0] == CR);
            assert(b.subrange(next + data.len(), next + data.len() + 2)[1] == LF);
        },
        FrameModel::Array(items) => {
            let line = decimal(items.len());
            let head = seq![TAG_ARRAY] + line + crlf();
            lemma_decimal_line(items.len());
            assert(encode(f) == head + encode_all(items));
            lemma_split(b, pos, head, encode_all(items));
            lemma_header(b, pos, TAG_ARRAY, line);
            lemma_scan_items_encoded(items, b, pos + head.len());
        },
    }
}

/// Encoded frames one after another at `pos` decode to themselves.
pub proof fn lemma_scan_items_encoded(items: Seq<FrameModel>, b: Seq<u8>, pos: int)
    requires
        forall|i: int| 0 <= i < items.len() ==> well_formed(#[trigger] items[i]),
        0 <= pos,
        pos + encode_all(items).len() <= b.len(),
        b.subrange(pos, pos + encode_all(items).len()) == encode_all(items),
    ensures
        scan_items(b, pos, items.len()) == ScanItems::Complete(
            items,
            pos + encode_all(items).len(),
        ),
    decreases items,
{
    if items.len() > 0 {
        let first = items[0];
        let rest = items.drop_first();
        lemma_split(b, pos, encode(first), encode_all(rest));
        lemma_scan_encoded(first, b, pos);
        lemma_encode_nonempty(first);
        lemma_scan_items_encoded(rest, b, pos + encode(first).len());
        assert(seq![first] + rest =~= items);
        assert(encode_all(items) == encode(first) + encode_all(rest));
        let e = pos + encode(first).len();
        assert(scan_at(b, pos) == Scan::Complete(first, e));
        assert(e > pos);
        assert(scan_items(b, e, rest.len()) == ScanItems::Complete(rest, e + encode_all(rest).len()));
    } else {
        assert(items =~= Seq::<FrameModel>::empty());
    }
}

/// Splits what is known of a cut-off `x + y` into what is known of `x` and of `y`.
proof fn lemma_cut(b: Seq<u8>, pos: int, x: Seq<u8>, y: Seq<u8>)
    requires
        0 <= pos <= b.len() < pos + x.len() + y.len(),
        b.subrange(pos, b.len() as int) == (x + y).subrange(0, b.len() - pos),
    ensures
        b.len() - pos <= x.len() ==> b.subrange(pos, b.len() as int) == x.subrange(
            0,
            b.len() - pos,
        ),
        b.len() - pos > x.len() ==> b.subrange(pos, pos + x.len()) == x && b.subrange(
            pos + x.len(),
            b.len() as int,
        ) == y.subrange(0, b.len() - pos - x.len()),
{
    let l = b.len() - pos;
    assert forall|i: int| 0 <= i < l implies b[pos + i] == (x + y)[i] by {
        assert(b.subrange(pos, b.len() as int)[i] == (x + y).subrange(0, l)[i]);
    }
    if l <= x.len() {
        assert(b.subrange(pos, b.len() as int) =~= x.subrange(0, l));
    } else {
        assert(b.subrange(pos, pos + x.len()) =~= x);
        assert forall|i: int| 0 <= i < l - x.len() implies b[pos + x.len() + i] == y[i] by {
            assert((x + y)[x.len() + i] == y[i]);
        }
        assert(b.subrange(pos + x.len(), b.len() as int) =~= y.subrange(0, l - x.len()));
    }
}

/// No delimiter is found where none occurs.
proof fn lemma_line_end_none(b: Seq<u8>, from: int)
    requires
        0 <= from,
        forall|j: int| from <= j && j + 1 < b.len() ==> !(#[trigger] b[j] == CR && b[j + 1] == LF),
    ensures
        line_end(b, from) is None,
    decreases b.len() - from,
{
    if from + 1 < b.len() {
        lemma_line_end_none(b, from + 1);
    }
}

/// A header line cut off before its delimiter is complete is not yet found.
proof fn lemma_header_cut(b: Seq<u8>, pos: int, tag: u8, line: Seq<u8>)
    requires
        0 <= pos < b.len() < pos + line.len() + 3,
        b.subrange(pos, b.len() as int) == (seq![tag] + line + crlf()).subrange(0, b.len() - pos),
        !has_crlf(line),
    ensures
        b[pos] == tag,
        line_end(b, pos + 1) is None,
{
    let h = seq![tag] + line + crlf();
    let l = b.len() - pos;
    assert(b.subrange(pos, b.len() as int)[0] == h.subrange(0, l)[0]);
    assert forall|j: int| pos + 1 <= j && j + 1 < b.len() implies !(#[trigger] b[j] == CR && b[j
        + 1] == LF) by {
        assert(b.subrange(pos, b.len() as int)[j - pos] == h.subrange(0, l)[j - pos]);
        assert(b.subrange(pos, b.len() as int)[j + 1 - pos] == h.subrange(0, l)[j + 1 - pos]);
        if j + 1 < pos + 1 + line.len() {
            assert(h[j - pos] == line[j - pos - 1]);
            assert(h[j + 1 - pos] == line[j - pos]);
        } else {
            assert(h[j + 1 - pos] == CR);
        }
    }
    lemma_line_end_none(b, pos + 1);
}

/// A frame cut off before its last byte decodes as incomplete.
pub proof fn lemma_scan_cut(f: FrameModel, b: Seq<u8>, pos: int)
    requires
        well_formed(f),
        0 <= pos <= b.len() < pos + encode(f).len(),
        b.subrange(pos, b.len() as int) == encode(f).subrange(0, b.len() - pos),
    ensures
        scan_at(b, pos) == Scan::Incomplete,
    decreases f,
{
    if pos < b.len() {
        match f {
            FrameModel::Simple(t) => {
                lemma_header_cut(b, pos, TAG_SIMPLE, encode_utf8(t));
            },
            FrameModel::Error(t) => {
                lemma_header_cut(b, pos, TAG_ERROR, encode_utf8(t));
            },
            FrameModel::Integer(n) => {
                lemma_decimal_line(n as nat);
                lemma_header_cut(b, pos, TAG_INTEGER, decimal(n as nat));
            },
            FrameModel::Null => {
                let line = seq![TAG_ERROR, 49u8];
                assert(null_bytes() =~= seq![TAG_BULK] + line + crlf());
                assert(!has_crlf(line)) by {
                    if has_crlf(line) {
                        let i = choose|i: int|
                            0 <= i < line.len() - 1 && #[trigger] line[i] == CR && line[i + 1]
                                == LF;
                    }
                }
                lemma_header_cut(b, pos, TAG_BULK, line);
            },
            FrameModel::Bulk(data) => {
                let line = decimal(data.len());
                let head = seq![TAG_BULK] + line + crlf();
                lemma_decimal_line(data.len());
                assert(encode(f) == head + (data + crlf()));
                lemma_cut(b, pos, head, data + crlf());
                if b.len() - pos <= head.len() {
                    if b.len() - pos == head.len() {
                        assert(b.subrange(pos, pos + head.len()) =~= head);
                        lemma_header(b, pos, TAG_BULK, line);
                    } else {
                        lemma_header_cut(b, pos, TAG_BULK, line);
                    }
                } else {
                    lemma_header(b, pos, TAG_BULK, line);
                }
            },
            FrameModel::Array(items) => {
                let line = decimal(items.len());
                let head = seq![TAG_ARRAY] + line + crlf();
                lemma_decimal_line(items.len());
                assert(encode(f) == head + encode_all(items));
                lemma_cut(b, pos, head, encode_all(items));
                if b.len() - pos < head.len() {
                    lemma_header_cut(b, pos, TAG_ARRAY, line);
                } else {
                    if b.len() - pos == head.len() {
                        assert(b.subrange(pos, pos + head.len()) =~= head);
                        assert(b.subrange(b.len() as int, b.len() as int) =~= encode_all(
                            items,
                        ).subrange(0, 0));
                    }
                    lemma_header(b, pos, TAG_ARRAY, line);
                    lemma_scan_items_cut(items, b, pos + head.len());
                }
            },
        }
    }
}

/// A run of frames cut off before its last byte decodes as incomplete.
pub proof fn lemma_scan_items_cut(items: Seq<FrameModel>, b: Seq<u8>, pos: int)
    requires
        forall|i: int| 0 <= i < items.len() ==> well_formed(#[trigger] items[i]),
        0 <= pos <= b.len() < pos + encode_all(items).len(),
        b.subrange(pos, b.len() as int) == encode_all(items).subrange(0, b.len() - pos),
    ensures
        scan_items(b, pos, items.len()) == ScanItems::Incomplete,
    decreases items,
{
    let first = items[0];
    let rest = items.drop_first();
    assert(encode_all(items) == encode(first) + encode_all(rest));
    lemma_cut(b, pos, encode(first), encode_all(rest));
    if b.len() - pos < encode(first).len() {
        lemma_scan_cut(first, b, pos);
    } else if b.len() - pos == encode(first).len() {
        assert(b.subrange(pos, pos + encode(first).len()) =~= encode(first));
        lemma_scan_encoded(first, b, pos);
        lemma_encode_nonempty(first);
        assert(b.subrange(b.len() as int, b.len() as int) =~= encode_all(rest).subrange(0, 0));
        lemma_scan_items_cut(rest, b, b.len() as int);
    } else {
        lemma_scan_encoded(first, b, pos);
        lemma_encode_nonempty(first);
        lemma_scan_items_cut(rest, b, pos + encode(first).len());
    }
}

/// Decoding an encoded frame gives the frame back, and says where it ends.
pub proof fn lemma_round_trip(f: FrameModel)
    requires
        well_formed(f),
    ensures
        decode(encode(f)) == Scan::Complete(f, encode(f).len() as int),
{
    assert(encode(f).subrange(0, encode(f).len() as int) =~= encode(f));
    lemma_scan_encoded(f, encode(f), 0);
}

/// Every proper prefix of an encoded frame decodes as incomplete, and the whole
/// of it as the frame: a reader that gathers the bytes in any chunks sees the
/// frame exactly when its last byte arrives.
pub proof fn lemma_prefix_incomplete(f: FrameModel, k: int)
    requires
        well_formed(f),
        0 <= k <= encode(f).len(),
    ensures
        k < encode(f).len() ==> decode(encode(f).subrange(0, k)) == Scan::Incomplete,
        k == encode(f).len() ==> decode(encode(f).subrange(0, k)) == Scan::Complete(f, k),
{
    let b = encode(f).subrange(0, k);
    if k < encode(f).len() {
        assert(b.subrange(0, k) =~= encode(f).subrange(0, k));
        lemma_scan_cut(f, b, 0);
    } else {
        lemma_round_trip(f);
        assert(b =~= encode(f));
    }
}

/// Two frames written back to back decode as the first, and what is left after
/// it as the second: no byte is lost or read twice.
pub proof fn lemma_back_to_back(f1: FrameModel, f2: FrameModel)
    requires
        well_formed(f1),
        well_formed(f2),
    ensures
        decode(encode(f1) + encode(f2)) == Scan::Complete(f1, encode(f1).len() as int),
        (encode(f1) + encode(f2)).skip(encode(f1).len() as int) == encode(f2),
        decode(encode(f2)) == Scan::Complete(f2, encode(f2).len() as int),
{
    let b = encode(f1) + encode(f2);
    assert(b.subrange(0, encode(f1).len() as int) =~= encode(f1));
    lemma_scan_encoded(f1, b, 0);
    assert(b.skip(encode(f1).len() as int) =~= encode(f2));
    lemma_round_trip(f2);
}

/// A bulk frame whose declared length does not end at a delimiter is rejected.
pub proof fn lemma_bulk_length_checked(n: u64, rest: Seq<u8>)
    requires
        n + 2 <= rest.len(),
        !(rest[n as int] == CR && rest[n + 1] == LF),
    ensures
        decode(seq![TAG_BULK] + decimal(n as nat) + crlf() + rest) == Scan::Malformed,
{
    let line = decimal(n as nat);
    let head = seq![TAG_BULK] + line + crlf();
    let b = head + rest;
    lemma_decimal_line(n as nat);
    assert(b.subrange(0, head.len() as int) =~= head);
    lemma_header(b, 0, TAG_BULK, line);
    assert(b[head.len() + n] == rest[n as int]);
    assert(b[head.len() + n + 1] == rest[n + 1]);
}

/// Every encoding takes at least one byte.
proof fn lemma_encode_nonempty(f: FrameModel)
    ensures
        encode(f).len() > 0,
{
}

} // verus!
