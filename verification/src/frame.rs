use vstd::prelude::*;

verus! {

use vstd::utf8::encode_utf8;
use vstd::utf8::is_ascii_chars;
use vstd::utf8::valid_utf8;

/// Carriage return, the first byte of every frame terminator.
pub const CR: u8 = 13;

/// Line feed, the second byte of every frame terminator.
pub const LF: u8 = 10;

/// `+`, opening a simple status frame.
pub const SIMPLE_SIGIL: u8 = 43;

/// `-`, opening an error frame (and the sign of the null marker).
pub const ERROR_SIGIL: u8 = 45;

/// `:`, opening an integer frame.
pub const INTEGER_SIGIL: u8 = 58;

/// `$`, opening a bulk or null frame.
pub const BULK_SIGIL: u8 = 36;

/// `*`, opening an array frame, which this layer does not support.
pub const ARRAY_SIGIL: u8 = 42;

/// Hard sanity bound on a declared bulk payload length (512 MiB): a
/// longer declaration is treated as malformed rather than buffered.
pub const MAX_BULK_LEN: u64 = 536870912;

/// One protocol message.  An `Array` value can be built in memory, but
/// the wire has no supported encoding or decoding for it.
#[derive(Debug, PartialEq, Eq)]
pub enum Frame {
    Simple(String),
    Error(String),
    Integer(u64),
    Null,
    Bulk(Vec<u8>),
    Array(Vec<Frame>),
}

/// How a scan or an encode can fail.  `NeedMoreData` is the internal
/// retry signal of the read loop; the other two are fatal.
#[derive(Debug, Clone, Copy, PartialEq, Eq, Structural)]
pub enum FrameError {
    NeedMoreData,
    Malformed,
    UnsupportedVariant,
}

/// A CR immediately followed by an LF at position `i`.
pub open spec fn crlf_at(b: Seq<u8>, i: int) -> bool {
    b[i] == CR && b[i + 1] == LF
}

/// No CRLF pair starts in `b` at or after position `from`.
pub open spec fn no_crlf_from(b: Seq<u8>, from: int) -> bool {
    forall|j: int| from <= j < b.len() - 1 ==> !crlf_at(b, j)
}

/// The first CRLF pair at or after `from` starts at `i`.
pub open spec fn line_end(b: Seq<u8>, from: int, i: int) -> bool {
    &&& from <= i <= b.len() - 2
    &&& crlf_at(b, i)
    &&& forall|j: int| from <= j < i ==> !crlf_at(b, j)
}

/// Every byte is below 128.
pub open spec fn all_ascii(b: Seq<u8>) -> bool {
    forall|i: int| 0 <= i < b.len() ==> b[i] < 128
}

/// An ASCII decimal digit.
pub open spec fn is_digit(b: u8) -> bool {
    48 <= b <= 57
}

/// Every byte is a decimal digit.
pub open spec fn all_digits(b: Seq<u8>) -> bool {
    forall|i: int| 0 <= i < b.len() ==> is_digit(b[i])
}

/// The number written in decimal as `b` (most significant digit first).
pub open spec fn digits_val(b: Seq<u8>) -> int
    decreases b.len(),
{
    if b.len() == 0 {
        0
    } else {
        digits_val(b.drop_last()) * 10 + b.last() - 48
    }
}

/// The canonical decimal digits of `n`: no sign, no leading zero.
pub open spec fn dec_repr(n: nat) -> Seq<u8>
    decreases n,
{
    if n < 10 {
        seq![(48 + n) as u8]
    } else {
        dec_repr(n / 10).push((48 + n % 10) as u8)
    }
}

/// Text that may ride in a simple or error frame: any characters
/// whose UTF-8 encoding holds no CRLF pair.
pub open spec fn text_ok(s: Seq<char>) -> bool {
    no_crlf_from(encode_utf8(s), 0)
}

/// `b` is exactly one line frame: the sigil, the line, then CRLF,
/// with no CRLF pair inside the line.
pub open spec fn line_frame(b: Seq<u8>, sigil: u8) -> bool {
    &&& b.len() >= 3
    &&& b[0] == sigil
    &&& crlf_at(b, b.len() - 2)
    &&& forall|j: int| 1 <= j < b.len() - 2 ==> !crlf_at(b, j)
}

/// The payload of a line frame: everything between sigil and CRLF.
pub open spec fn line_content(b: Seq<u8>) -> Seq<u8> {
    b.subrange(1, b.len() - 2)
}

/// `b` is exactly one simple status frame.
pub open spec fn simple_frame(b: Seq<u8>) -> bool {
    line_frame(b, SIMPLE_SIGIL)
}

/// `b` is exactly one error frame.
pub open spec fn error_frame(b: Seq<u8>) -> bool {
    line_frame(b, ERROR_SIGIL)
}

/// `b` is exactly one integer frame: `:` then decimal digits whose
/// value fits in a `u64`.
pub open spec fn integer_frame(b: Seq<u8>) -> bool {
    &&& line_frame(b, INTEGER_SIGIL)
    &&& line_content(b).len() >= 1
    &&& all_digits(line_content(b))
    &&& digits_val(line_content(b)) <= u64::MAX
}

/// The five bytes of the null frame, `$-1` CRLF.
pub open spec fn null_wire() -> Seq<u8> {
    seq![BULK_SIGIL, ERROR_SIGIL, 49u8, CR, LF]
}

/// `b` is exactly the null frame.
pub open spec fn null_frame(b: Seq<u8>) -> bool {
    b == null_wire()
}

/// `b` is exactly one bulk frame whose length line holds `k` digits:
/// `$`, the digits, CRLF, that many payload bytes, CRLF.
pub open spec fn bulk_shape(b: Seq<u8>, k: int) -> bool {
    &&& 1 <= k
    &&& b.len() == k + 5 + digits_val(b.subrange(1, 1 + k))
    &&& b[0] == BULK_SIGIL
    &&& all_digits(b.subrange(1, 1 + k))
    &&& crlf_at(b, 1 + k)
    &&& digits_val(b.subrange(1, 1 + k)) <= MAX_BULK_LEN
    &&& crlf_at(b, b.len() - 2)
}

/// `b` is exactly one bulk frame.
pub open spec fn bulk_frame(b: Seq<u8>) -> bool {
    exists|k: int| bulk_shape(b, k)
}

/// The payload of a bulk frame whose length line holds `k` digits.
pub open spec fn bulk_payload(b: Seq<u8>, k: int) -> Seq<u8> {
    b.subrange(k + 3, b.len() - 2)
}

/// `b` is exactly one complete frame of any supported kind.
pub open spec fn complete_frame(b: Seq<u8>) -> bool {
    simple_frame(b) || error_frame(b) || integer_frame(b) || null_frame(b) || bulk_frame(b)
}

/// `b` is a truncated prefix that one more read could still complete:
/// this is what drives the internal retry of the read loop.
pub open spec fn partial_frame(b: Seq<u8>) -> bool {
    ||| b.len() == 0
    ||| ((b[0] == SIMPLE_SIGIL || b[0] == ERROR_SIGIL || b[0] == INTEGER_SIGIL) && no_crlf_from(
        b,
        1,
    ))
    ||| (b[0] == BULK_SIGIL && b.len() == 1)
    ||| (b[0] == BULK_SIGIL && b.len() >= 2 && no_crlf_from(b, 1))
    ||| (b[0] == BULK_SIGIL && b.len() >= 2 && b[1] != ERROR_SIGIL && exists|i: int|
        {
            &&& #[trigger] line_end(b, 1, i)
            &&& i > 1
            &&& all_digits(b.subrange(1, i))
            &&& digits_val(b.subrange(1, i)) <= MAX_BULK_LEN
            &&& b.len() < i + 4 + digits_val(b.subrange(1, i))
        })
}

/// Whether the line text of a complete frame decodes: only the two
/// text variants can fail, and only on bytes that are not UTF-8.
pub open spec fn frame_decodes(b: Seq<u8>) -> bool {
    (b[0] == SIMPLE_SIGIL || b[0] == ERROR_SIGIL) ==> valid_utf8(line_content(b))
}

/// What a decode of the complete frame `b` must hand back.
pub open spec fn parse_rel(b: Seq<u8>, f: Frame) -> bool {
    match f {
        Frame::Simple(s) => simple_frame(b) && encode_utf8(s@) == line_content(b),
        Frame::Error(s) => error_frame(b) && encode_utf8(s@) == line_content(b),
        Frame::Integer(u) => integer_frame(b) && u == digits_val(line_content(b)),
        Frame::Null => null_frame(b),
        Frame::Bulk(v) => bulk_frame(b) && forall|k: int|
            #[trigger] bulk_shape(b, k) ==> v@ == bulk_payload(b, k),
        Frame::Array(_) => false,
    }
}

/// The wire bytes of a frame (meaningless for `Array`, which has no
/// supported encoding).
pub open spec fn wire_of(f: Frame) -> Seq<u8> {
    match f {
        Frame::Simple(s) => seq![SIMPLE_SIGIL] + encode_utf8(s@) + seq![CR, LF],
        Frame::Error(s) => seq![ERROR_SIGIL] + encode_utf8(s@) + seq![CR, LF],
        Frame::Integer(u) => seq![INTEGER_SIGIL] + dec_repr(u as nat) + seq![CR, LF],
        Frame::Null => null_wire(),
        Frame::Bulk(v) => seq![BULK_SIGIL] + dec_repr(v@.len()) + seq![CR, LF] + v@ + seq![CR, LF],
        Frame::Array(_) => Seq::empty(),
    }
}

/// A frame that the encoder accepts: anything but an array, with
/// well-behaved text in the two line variants.
pub open spec fn frame_well_formed(f: Frame) -> bool {
    match f {
        Frame::Simple(s) => text_ok(s@),
        Frame::Error(s) => text_ok(s@),
        Frame::Integer(_) => true,
        Frame::Null => true,
        Frame::Bulk(_) => true,
        Frame::Array(_) => false,
    }
}

/// A frame whose encoding the scanner also accepts back: well formed,
/// with a bulk payload under the sanity bound.
pub open spec fn frame_in_bounds(f: Frame) -> bool {
    frame_well_formed(f) && match f {
        Frame::Bulk(v) => v@.len() <= MAX_BULK_LEN,
        _ => true,
    }
}

/// The same message content, variant by variant.
pub open spec fn frame_eqv(a: Frame, b: Frame) -> bool {
    match (a, b) {
        (Frame::Simple(x), Frame::Simple(y)) => x@ == y@,
        (Frame::Error(x), Frame::Error(y)) => x@ == y@,
        (Frame::Integer(x), Frame::Integer(y)) => x == y,
        (Frame::Null, Frame::Null) => true,
        (Frame::Bulk(x), Frame::Bulk(y)) => x@ == y@,
        (Frame::Array(x), Frame::Array(y)) => x == y,
        _ => false,
    }
}

/// A decimal value is never negative.
pub proof fn lemma_digits_val_nonneg(s: Seq<u8>)
    requires
        all_digits(s),
    ensures
        digits_val(s) >= 0,
    decreases s.len(),
{
    if s.len() > 0 {
        assert(all_digits(s.drop_last())) by {
            assert(forall|i: int| 0 <= i < s.len() - 1 ==> s.drop_last()[i] == s[i]);
        }
        lemma_digits_val_nonneg(s.drop_last());
    }
}

/// Dropping trailing digits can only lower a decimal value.
pub proof fn lemma_digits_val_prefix_le(s: Seq<u8>, i: int)
    requires
        all_digits(s),
        0 <= i <= s.len(),
    ensures
        digits_val(s.subrange(0, i)) <= digits_val(s),
    decreases s.len() - i,
{
    if i == s.len() {
        assert(s.subrange(0, i) =~= s);
    } else {
        assert(all_digits(s.drop_last())) by {
            assert(forall|j: int| 0 <= j < s.len() - 1 ==> s.drop_last()[j] == s[j]);
        }
        assert(s.drop_last().subrange(0, i) =~= s.subrange(0, i));
        lemma_digits_val_prefix_le(s.drop_last(), i);
        lemma_digits_val_nonneg(s.drop_last());
        assert(digits_val(s) == digits_val(s.drop_last()) * 10 + s.last() - 48);
        assert(digits_val(s.drop_last()) * 10 >= digits_val(s.drop_last()));
        assert(s.last() >= 48);
    }
}

/// There is only one first CRLF.
pub proof fn lemma_line_end_unique(b: Seq<u8>, from: int, i1: int, i2: int)
    requires
        line_end(b, from, i1),
        line_end(b, from, i2),
    ensures
        i1 == i2,
{
}

/// Two length lines of one bulk frame shape must agree.
pub proof fn lemma_bulk_shape_unique(b: Seq<u8>, k1: int, k2: int)
    requires
        bulk_shape(b, k1),
        bulk_shape(b, k2),
    ensures
        k1 == k2,
{
    lemma_digits_val_nonneg(b.subrange(1, 1 + k1));
    lemma_digits_val_nonneg(b.subrange(1, 1 + k2));
    if k1 < k2 {
        assert(is_digit(b.subrange(1, 1 + k2)[k1]));
        assert(b.subrange(1, 1 + k2)[k1] == b[1 + k1]);
        assert(crlf_at(b, 1 + k1));
        assert(false);
    }
    if k2 < k1 {
        assert(is_digit(b.subrange(1, 1 + k1)[k2]));
        assert(b.subrange(1, 1 + k1)[k2] == b[1 + k2]);
        assert(crlf_at(b, 1 + k2));
        assert(false);
    }
}

/// Whatever kind a complete frame at the front of `s` has, its layout
/// is pinned by the first CRLF of `s`: this is what makes the frame
/// boundary unambiguous inside a larger buffer.
pub proof fn lemma_complete_shape(s: Seq<u8>, n: int)
    requires
        0 <= n <= s.len(),
        complete_frame(s.subrange(0, n)),
    ensures
        n >= 3,
        s[0] == SIMPLE_SIGIL || s[0] == ERROR_SIGIL || s[0] == INTEGER_SIGIL || s[0]
            == BULK_SIGIL,
        (s[0] == SIMPLE_SIGIL || s[0] == ERROR_SIGIL || s[0] == INTEGER_SIGIL) ==> line_end(
            s,
            1,
            n - 2,
        ) && line_frame(s.subrange(0, n), s[0]),
        s[0] == BULK_SIGIL && s[1] == ERROR_SIGIL ==> n == 5 && line_end(s, 1, 3)
            && null_frame(s.subrange(0, n)),
        s[0] == BULK_SIGIL && s[1] != ERROR_SIGIL ==> exists|k: int|
            {
                &&& #[trigger] bulk_shape(s.subrange(0, n), k)
                &&& line_end(s, 1, 1 + k)
                &&& n == k + 5 + digits_val(s.subrange(1, 1 + k))
                &&& all_digits(s.subrange(1, 1 + k))
                &&& digits_val(s.subrange(1, 1 + k)) <= MAX_BULK_LEN
            },
{
    let c = s.subrange(0, n);
    assert(forall|j: int| 0 <= j < n ==> c[j] == s[j]);
    if simple_frame(c) || error_frame(c) || integer_frame(c) {
        assert(crlf_at(s, n - 2));
        assert forall|j: int| 1 <= j < n - 2 implies !crlf_at(s, j) by {
            assert(!crlf_at(c, j));
        }
        assert(line_end(s, 1, n - 2));
    } else if null_frame(c) {
        assert(c.len() == 5);
        assert(c[0] == BULK_SIGIL && c[1] == ERROR_SIGIL && c[2] == 49 && crlf_at(c, 3));
        assert(!crlf_at(s, 1));
        assert(!crlf_at(s, 2));
        assert(line_end(s, 1, 3));
    } else {
        let k = choose|k: int| bulk_shape(c, k);
        assert(bulk_shape(c, k));
        lemma_digits_val_nonneg(c.subrange(1, 1 + k));
        assert(c.subrange(1, 1 + k) =~= s.subrange(1, 1 + k));
        assert(crlf_at(s, 1 + k));
        assert forall|j: int| 1 <= j < 1 + k implies !crlf_at(s, j) by {
            assert(is_digit(s.subrange(1, 1 + k)[j - 1]));
            assert(s[j] != CR);
        }
        assert(line_end(s, 1, 1 + k));
        assert(s[1] != ERROR_SIGIL) by {
            assert(is_digit(s.subrange(1, 1 + k)[0]));
        }
    }
}

/// Inside a buffer whose first CRLF after the sigil starts at `i0`, a
/// complete bulk frame at the front must take exactly the digits
/// before `i0` as its length line, which pins its whole layout.
proof fn lemma_bulk_prefix_pinned(s: Seq<u8>, n: int, i0: int)
    requires
        0 <= n <= s.len(),
        complete_frame(s.subrange(0, n)),
        2 <= s.len(),
        s[0] == BULK_SIGIL,
        s[1] != ERROR_SIGIL,
        line_end(s, 1, i0),
    ensures
        i0 >= 2,
        all_digits(s.subrange(1, i0)),
        digits_val(s.subrange(1, i0)) <= MAX_BULK_LEN,
        n == i0 + 4 + digits_val(s.subrange(1, i0)),
        s[n - 2] == CR && s[n - 1] == LF,
{
    lemma_complete_shape(s, n);
    let k = choose|k: int|
        {
            &&& #[trigger] bulk_shape(s.subrange(0, n), k)
            &&& line_end(s, 1, 1 + k)
            &&& n == k + 5 + digits_val(s.subrange(1, 1 + k))
            &&& all_digits(s.subrange(1, 1 + k))
            &&& digits_val(s.subrange(1, 1 + k)) <= MAX_BULK_LEN
        };
    lemma_line_end_unique(s, 1, 1 + k, i0);
    lemma_digits_val_nonneg(s.subrange(1, i0));
    assert(crlf_at(s.subrange(0, n), n - 2));
    assert(s.subrange(0, n)[n - 2] == s[n - 2]);
    assert(s.subrange(0, n)[n - 1] == s[n - 1]);
}

/// With the length line ended at `i0`, the buffer is a partial bulk
/// frame exactly when that line is digits within the sanity bound and
/// the declared payload has not yet fully arrived.
proof fn lemma_bulk_partial_iff(s: Seq<u8>, i0: int)
    requires
        2 <= s.len(),
        s[0] == BULK_SIGIL,
        s[1] != ERROR_SIGIL,
        line_end(s, 1, i0),
    ensures
        partial_frame(s) <==> ({
            &&& i0 > 1
            &&& all_digits(s.subrange(1, i0))
            &&& digits_val(s.subrange(1, i0)) <= MAX_BULK_LEN
            &&& s.len() < i0 + 4 + digits_val(s.subrange(1, i0))
        }),
{
    assert(!no_crlf_from(s, 1)) by {
        assert(crlf_at(s, i0));
    }
    if partial_frame(s) {
        let i = choose|i: int|
            {
                &&& #[trigger] line_end(s, 1, i)
                &&& i > 1
                &&& all_digits(s.subrange(1, i))
                &&& digits_val(s.subrange(1, i)) <= MAX_BULK_LEN
                &&& s.len() < i + 4 + digits_val(s.subrange(1, i))
            };
        lemma_line_end_unique(s, 1, i, i0);
    }
}

/// The canonical representation of `n` is at least one decimal
/// digit, and reads back as `n`.
pub proof fn lemma_dec_repr(n: nat)
    ensures
        all_digits(dec_repr(n)),
        dec_repr(n).len() >= 1,
        digits_val(dec_repr(n)) == n,
    decreases n,
{
    if n < 10 {
        let s = dec_repr(n);
        assert(s =~= seq![(48 + n) as u8]);
        assert(s.drop_last() =~= Seq::<u8>::empty());
        assert(digits_val(Seq::<u8>::empty()) == 0);
        assert(digits_val(s) == n);
    } else {
        lemma_dec_repr(n / 10);
        let p = dec_repr(n / 10);
        let s = dec_repr(n);
        assert(s == p.push((48 + n % 10) as u8));
        assert(s.drop_last() =~= p);
        assert(s.last() == (48 + n % 10) as u8);
        assert(digits_val(s) == (n / 10) * 10 + n % 10);
        assert(n == (n / 10) * 10 + n % 10);
        assert forall|i: int| 0 <= i < s.len() implies is_digit(s[i]) by {
            if i < p.len() {
                assert(s[i] == p[i]);
            }
        }
    }
}

/// The first CRLF pair at or after `from`, if any.
fn find_crlf(buf: &Vec<u8>, from: usize) -> (r: Option<usize>)
    requires
        from <= buf.len(),
    ensures
        match r {
            Some(p) => from <= p && p + 1 < buf@.len() && crlf_at(buf@, p as int) && forall|j: int|
                from <= j < p ==> !crlf_at(buf@, j),
            None => forall|j: int| from <= j < buf@.len() - 1 ==> !crlf_at(buf@, j),
        },
{
    if buf.len() == 0 {
        return None;
    }
    let mut i: usize = from;
    while i < buf.len() - 1
        invariant
            buf.len() >= 1,
            from <= i,
            i <= buf.len(),
            forall|j: int| from <= j < i ==> !crlf_at(buf@, j),
        decreases buf.len() - i,
    {
        if buf[i] == CR && buf[i + 1] == LF {
            return Some(i);
        }
        i += 1;
    }
    None
}

/// Read `buf[start..end]` as an unsigned decimal number: `None` when it
/// is empty, holds a non-digit, or does not fit in a `u64`.
fn scan_decimal(buf: &Vec<u8>, start: usize, end: usize) -> (r: Option<u64>)
    requires
        start <= end <= buf.len(),
    ensures
        ({
            let d = buf@.subrange(start as int, end as int);
            match r {
                Some(v) => d.len() >= 1 && all_digits(d) && v == digits_val(d),
                None => !(d.len() >= 1 && all_digits(d) && digits_val(d) <= u64::MAX),
            }
        }),
{
    let ghost d = buf@.subrange(start as int, end as int);
    if start == end {
        return None;
    }
    let mut i: usize = start;
    let mut val: u64 = 0;
    proof {
        assert(d.subrange(0, 0) =~= Seq::<u8>::empty());
    }
    while i < end
        invariant
            start <= i <= end <= buf.len(),
            d == buf@.subrange(start as int, end as int),
            all_digits(d.subrange(0, i - start)),
            val == digits_val(d.subrange(0, i - start)),
        decreases end - i,
    {
        let b = buf[i];
        assert(d[i - start] == buf@[i as int]);
        if b < 48 || b > 57 {
            return None;
        }
        let ghost pre = d.subrange(0, i - start);
        proof {
            assert(d.subrange(0, i - start + 1).drop_last() =~= pre);
            assert(d.subrange(0, i - start + 1).last() == b);
            assert(all_digits(d.subrange(0, i - start + 1)));
        }
        let step = match val.checked_mul(10) {
            Some(x) => x.checked_add((b - 48) as u64),
            None => None,
        };
        match step {
            Some(x) => {
                val = x;
            },
            None => {
                proof {
                    let over = d.subrange(0, i - start + 1);
                    assert(digits_val(over) == val * 10 + b - 48);
                    assert(digits_val(over) > u64::MAX);
                    if all_digits(d) {
                        lemma_digits_val_prefix_le(d, i - start + 1);
                        assert(d.subrange(0, i - start + 1) == over);
                    }
                }
                return None;
            },
        }
        i += 1;
    }
    proof {
        assert(d.subrange(0, end - start) =~= d);
    }
    Some(val)
}

/// UTF-8 encoding is injective: equal encodings come from equal text.
proof fn lemma_encode_utf8_injective(a: Seq<char>, b: Seq<char>)
    requires
        encode_utf8(a) == encode_utf8(b),
    ensures
        a == b,
{
    vstd::utf8::encode_utf8_decode_utf8(a);
    vstd::utf8::encode_utf8_decode_utf8(b);
}

/// Bytes below 128, read as chars one for one, encode back to the
/// same bytes.
proof fn lemma_byte_chars_encode(bs: Seq<u8>)
    requires
        all_ascii(bs),
    ensures
        encode_utf8(bs.map_values(|b: u8| b as char)) == bs,
{
    let cs = bs.map_values(|b: u8| b as char);
    assert forall|i: int| 0 <= i < cs.len() implies '\0' <= #[trigger] cs[i] <= '\u{7f}' by {
        assert(cs[i] == bs[i] as char);
    }
    assert(is_ascii_chars(cs));
    vstd::utf8::is_ascii_chars_encode_utf8(cs);
    assert forall|i: int| 0 <= i < bs.len() implies encode_utf8(cs)[i] == bs[i] by {
        assert(cs[i] as u8 == encode_utf8(cs)[i]);
        assert(cs[i] == bs[i] as char);
    }
    assert(encode_utf8(cs) =~= bs);
}

/// Copy `buf[lo..hi]` into a fresh vector.
fn sub_vec(buf: &Vec<u8>, lo: usize, hi: usize) -> (v: Vec<u8>)
    requires
        lo <= hi <= buf.len(),
    ensures
        v@ == buf@.subrange(lo as int, hi as int),
{
    let mut v: Vec<u8> = Vec::new();
    let mut i: usize = lo;
    proof {
        assert(v@ =~= buf@.subrange(lo as int, lo as int));
    }
    while i < hi
        invariant
            lo <= i <= hi <= buf.len(),
            v@ == buf@.subrange(lo as int, i as int),
        decreases hi - i,
    {
        v.push(buf[i]);
        proof {
            assert(v@ =~= buf@.subrange(lo as int, i + 1));
        }
        i += 1;
    }
    v
}

/// Relies on `String::from_utf8`: it succeeds exactly on valid UTF-8,
/// and the returned text encodes back to exactly the input bytes.
#[verifier::external_body]
fn utf8_bytes_to_string(v: Vec<u8>) -> (r: Option<String>)
    ensures
        match r {
            Some(s) => valid_utf8(v@) && encode_utf8(s@) == v@,
            None => !valid_utf8(v@),
        },
{
    String::from_utf8(v).ok()
}

/// The canonical decimal digits of `n`, as bytes.
fn u64_to_dec(n: u64) -> (v: Vec<u8>)
    ensures
        v@ == dec_repr(n as nat),
{
    if n == 0 {
        let mut v: Vec<u8> = Vec::new();
        v.push(48);
        proof {
            assert(v@ =~= dec_repr(0));
        }
        return v;
    }
    let mut rev: Vec<u8> = Vec::new();
    let mut cur = n;
    proof {
        assert(rev@.reverse() =~= Seq::<u8>::empty());
        assert(dec_repr(n as nat) =~= dec_repr(cur as nat) + rev@.reverse());
    }
    while cur > 0
        invariant
            cur > 0 ==> dec_repr(n as nat) == dec_repr(cur as nat) + rev@.reverse(),
            cur == 0 ==> dec_repr(n as nat) == rev@.reverse(),
            n > 0,
        decreases cur,
    {
        let ghost pre = rev@;
        let ghost prev = cur;
        let d = (cur % 10) as u8 + 48;
        rev.push(d);
        cur = cur / 10;
        proof {
            assert(rev@.reverse() =~= seq![d] + pre.reverse());
            if prev < 10 {
                assert(cur == 0);
                assert(dec_repr(prev as nat) =~= seq![d]);
                assert(dec_repr(n as nat) == seq![d] + pre.reverse());
                assert(seq![d] + pre.reverse() =~= rev@.reverse());
            } else {
                assert(dec_repr(prev as nat) == dec_repr(cur as nat).push(d));
                assert(dec_repr(cur as nat).push(d) =~= dec_repr(cur as nat) + seq![d]);
                assert((dec_repr(cur as nat) + seq![d]) + pre.reverse() =~= dec_repr(cur as nat)
                    + (seq![d] + pre.reverse()));
            }
        }
    }
    let v = crate::flatten::reversed(rev);
    proof {
        assert(v@ =~= dec_repr(n as nat));
    }
    v
}

/// The canonical decimal digits of `n`, as characters.
pub open spec fn dec_chars(n: nat) -> Seq<char> {
    dec_repr(n).map_values(|b: u8| b as char)
}

/// Render `n` in decimal.
pub fn u64_to_string(n: u64) -> (s: String)
    ensures
        s@ == dec_chars(n as nat),
{
    let d = u64_to_dec(n);
    let ghost gb = d@;
    proof {
        lemma_dec_repr(n as nat);
        assert forall|i: int| 0 <= i < gb.len() implies gb[i] < 128 by {
            assert(is_digit(gb[i]));
        }
        lemma_byte_chars_encode(gb);
    }
    match utf8_bytes_to_string(d) {
        Some(s) => {
            proof {
                lemma_encode_utf8_injective(s@, gb.map_values(|b: u8| b as char));
            }
            s
        },
        None => {
            proof {
                vstd::utf8::encode_utf8_valid_utf8(gb.map_values(|b: u8| b as char));
                assert(false);
            }
            String::new()
        },
    }
}

/// Whether the bytes hold a CRLF pair anywhere.
fn has_crlf(v: &Vec<u8>) -> (r: bool)
    ensures
        r == !no_crlf_from(v@, 0),
{
    match find_crlf(v, 0) {
        Some(_) => true,
        None => false,
    }
}

impl Frame {
    /// Scan the buffered bytes from `start` for one complete frame.
    /// `Ok(n)` reports that exactly the next `n` bytes form a frame;
    /// `NeedMoreData` that the bytes are a truncated prefix worth
    /// another read; `Malformed` that they violate the grammar; and
    /// `UnsupportedVariant` that an array frame arrived.  Nothing is
    /// consumed and no frame is built.
    #[verifier::rlimit(60)]
    pub fn check(buf: &Vec<u8>, start: usize) -> (r: Result<usize, FrameError>)
        requires
            start <= buf.len(),
        ensures
            ({
                let s = buf@.subrange(start as int, buf@.len() as int);
                &&& (match r {
                    Ok(n) => n <= s.len() && complete_frame(s.subrange(0, n as int)),
                    Err(_) => true,
                })
                &&& forall|n: int|
                    0 <= n <= s.len() && complete_frame(s.subrange(0, n)) ==> r == Ok::<
                        usize,
                        FrameError,
                    >(n as usize)
                &&& (r == Err::<usize, FrameError>(FrameError::NeedMoreData) <==> partial_frame(s))
                &&& (r == Err::<usize, FrameError>(FrameError::UnsupportedVariant) <==> (s.len()
                    > 0 && s[0] == ARRAY_SIGIL))
            }),
    {
        let ghost s = buf@.subrange(start as int, buf@.len() as int);
        proof {
            assert(forall|j: int| 0 <= j < s.len() ==> s[j] == buf@[start + j]);
        }
        if start == buf.len() {
            proof {
                assert(s.len() == 0);
                assert forall|n: int|
                    0 <= n <= s.len() && complete_frame(s.subrange(0, n)) implies false by {
                    lemma_complete_shape(s, n);
                }
            }
            return Err(FrameError::NeedMoreData);
        }
        let sig = buf[start];
        assert(s[0] == sig);
        if sig == SIMPLE_SIGIL || sig == ERROR_SIGIL || sig == INTEGER_SIGIL {
            match find_crlf(buf, start + 1) {
                None => {
                    proof {
                        assert forall|j: int| 1 <= j < s.len() - 1 implies !crlf_at(s, j) by {
                            assert(!crlf_at(buf@, start + j));
                        }
                        assert(no_crlf_from(s, 1));
                        assert(partial_frame(s));
                        assert forall|n: int|
                            0 <= n <= s.len() && complete_frame(s.subrange(0, n)) implies false by {
                            lemma_complete_shape(s, n);
                            assert(crlf_at(s, n - 2));
                        }
                    }
                    Err(FrameError::NeedMoreData)
                },
                Some(p) => {
                    let n0 = p + 2 - start;
                    proof {
                        assert(crlf_at(s, p - start));
                        assert forall|j: int| 1 <= j < p - start implies !crlf_at(s, j) by {
                            assert(!crlf_at(buf@, start + j));
                        }
                        assert(line_end(s, 1, p - start));
                        assert(!partial_frame(s));
                        assert forall|n: int|
                            0 <= n <= s.len() && complete_frame(s.subrange(0, n)) implies n
                            == n0 by {
                            lemma_complete_shape(s, n);
                            lemma_line_end_unique(s, 1, n - 2, p - start);
                        }
                    }
                    let ghost c = s.subrange(0, n0 as int);
                    proof {
                        assert(c.len() == n0);
                        assert(c[0] == sig);
                        assert(crlf_at(c, n0 - 2));
                        assert forall|j: int| 1 <= j < n0 - 2 implies !crlf_at(c, j) by {
                            assert(!crlf_at(s, j));
                            assert(c[j] == s[j] && c[j + 1] == s[j + 1]);
                        }
                        assert(line_frame(c, sig));
                        assert(line_content(c) =~= buf@.subrange(start + 1, p as int));
                    }
                    if sig != INTEGER_SIGIL {
                        proof {
                            assert(complete_frame(s.subrange(0, n0 as int)));
                        }
                        Ok(n0)
                    } else if scan_decimal(buf, start + 1, p).is_some() {
                        proof {
                            assert(integer_frame(c));
                            assert(complete_frame(s.subrange(0, n0 as int)));
                        }
                        Ok(n0)
                    } else {
                        proof {
                            assert forall|n: int|
                                0 <= n <= s.len() && complete_frame(
                                    s.subrange(0, n),
                                ) implies false by {
                                lemma_complete_shape(s, n);
                                lemma_line_end_unique(s, 1, n - 2, p - start);
                                assert(s.subrange(0, n) == c);
                                assert(line_content(c) == buf@.subrange(start + 1, p as int));
                            }
                        }
                        Err(FrameError::Malformed)
                    }
                },
            }
        } else if sig == BULK_SIGIL {
            if start + 1 == buf.len() {
                proof {
                    assert(s.len() == 1);
                    assert(partial_frame(s));
                    assert forall|n: int|
                        0 <= n <= s.len() && complete_frame(s.subrange(0, n)) implies false by {
                        lemma_complete_shape(s, n);
                    }
                }
                return Err(FrameError::NeedMoreData);
            }
            let second = buf[start + 1];
            assert(s[1] == second);
            if second == ERROR_SIGIL {
                match find_crlf(buf, start + 1) {
                    None => {
                        proof {
                            assert forall|j: int| 1 <= j < s.len() - 1 implies !crlf_at(s, j) by {
                                assert(!crlf_at(buf@, start + j));
                            }
                            assert(no_crlf_from(s, 1));
                            assert(partial_frame(s));
                            assert forall|n: int|
                                0 <= n <= s.len() && complete_frame(
                                    s.subrange(0, n),
                                ) implies false by {
                                lemma_complete_shape(s, n);
                            }
                        }
                        Err(FrameError::NeedMoreData)
                    },
                    Some(p) => {
                        proof {
                            assert(crlf_at(s, p - start));
                            assert forall|j: int| 1 <= j < p - start implies !crlf_at(s, j) by {
                                assert(!crlf_at(buf@, start + j));
                            }
                            assert(line_end(s, 1, p - start));
                            assert(!partial_frame(s));
                        }
                        if p == start + 3 && buf[start + 2] == 49 {
                            proof {
                                assert(s.subrange(0, 5) =~= null_wire());
                                assert(complete_frame(s.subrange(0, 5)));
                                assert forall|n: int|
                                    0 <= n <= s.len() && complete_frame(
                                        s.subrange(0, n),
                                    ) implies n == 5 by {
                                    lemma_complete_shape(s, n);
                                    lemma_line_end_unique(s, 1, 3, p - start);
                                }
                            }
                            Ok(5)
                        } else {
                            proof {
                                assert forall|n: int|
                                    0 <= n <= s.len() && complete_frame(
                                        s.subrange(0, n),
                                    ) implies false by {
                                    lemma_complete_shape(s, n);
                                    lemma_line_end_unique(s, 1, 3, p - start);
                                    assert(s.subrange(0, n)[2] == s[2]);
                                }
                            }
                            Err(FrameError::Malformed)
                        }
                    },
                }
            } else {
                match find_crlf(buf, start + 1) {
                    None => {
                        proof {
                            assert forall|j: int| 1 <= j < s.len() - 1 implies !crlf_at(s, j) by {
                                assert(!crlf_at(buf@, start + j));
                            }
                            assert(no_crlf_from(s, 1));
                            assert(partial_frame(s));
                            assert forall|n: int|
                                0 <= n <= s.len() && complete_frame(
                                    s.subrange(0, n),
                                ) implies false by {
                                lemma_complete_shape(s, n);
                            }
                        }
                        Err(FrameError::NeedMoreData)
                    },
                    Some(p) => {
                        proof {
                            assert(crlf_at(s, p - start));
                            assert forall|j: int| 1 <= j < p - start implies !crlf_at(s, j) by {
                                assert(!crlf_at(buf@, start + j));
                            }
                            assert(line_end(s, 1, p - start));
                        }
                        let ghost digits = s.subrange(1, p - start);
                        proof {
                            assert(digits =~= buf@.subrange(start + 1, p as int));
                        }
                        match scan_decimal(buf, start + 1, p) {
                            None => {
                                proof {
                                    assert forall|n: int|
                                        0 <= n <= s.len() && complete_frame(
                                            s.subrange(0, n),
                                        ) implies false by {
                                        lemma_bulk_prefix_pinned(s, n, p - start);
                                    }
                                    lemma_bulk_partial_iff(s, p - start);
                                    assert(!partial_frame(s)) by {
                                        if partial_frame(s) {
                                            assert(all_digits(digits) && digits.len() >= 1);
                                            assert(digits_val(digits) <= MAX_BULK_LEN);
                                        }
                                    }
                                }
                                Err(FrameError::Malformed)
                            },
                            Some(v) => {
                                proof {
                                    assert(digits.len() >= 1 && all_digits(digits) && v
                                        == digits_val(digits));
                                    lemma_digits_val_nonneg(digits);
                                    lemma_bulk_partial_iff(s, p - start);
                                }
                                if v > MAX_BULK_LEN {
                                    proof {
                                        assert forall|n: int|
                                            0 <= n <= s.len() && complete_frame(
                                                s.subrange(0, n),
                                            ) implies false by {
                                            lemma_bulk_prefix_pinned(s, n, p - start);
                                        }
                                        assert(!partial_frame(s));
                                    }
                                    return Err(FrameError::Malformed);
                                }
                                let m = v as usize;
                                let after = p + 2;
                                if buf.len() - after < m || buf.len() - after - m < 2 {
                                    proof {
                                        assert(s.len() < (p - start) + 4 + digits_val(digits));
                                        assert(partial_frame(s));
                                        assert forall|n: int|
                                            0 <= n <= s.len() && complete_frame(
                                                s.subrange(0, n),
                                            ) implies false by {
                                            lemma_bulk_prefix_pinned(s, n, p - start);
                                        }
                                    }
                                    return Err(FrameError::NeedMoreData);
                                }
                                let n0 = after + m + 2 - start;
                                let ghost k0: int = p - start - 1;
                                if buf[after + m] == CR && buf[after + m + 1] == LF {
                                    proof {
                                        let c = s.subrange(0, n0 as int);
                                        assert(forall|j: int| 0 <= j < n0 ==> c[j] == s[j]);
                                        assert(c.subrange(1, 1 + k0) =~= digits);
                                        assert(crlf_at(c, 1 + k0));
                                        assert(crlf_at(c, c.len() - 2));
                                        assert(bulk_shape(c, k0));
                                        assert(complete_frame(s.subrange(0, n0 as int)));
                                        assert forall|n: int|
                                            0 <= n <= s.len() && complete_frame(
                                                s.subrange(0, n),
                                            ) implies n == n0 by {
                                            lemma_bulk_prefix_pinned(s, n, p - start);
                                        }
                                        assert(!partial_frame(s));
                                    }
                                    Ok(n0)
                                } else {
                                    proof {
                                        assert forall|n: int|
                                            0 <= n <= s.len() && complete_frame(
                                                s.subrange(0, n),
                                            ) implies false by {
                                            lemma_bulk_prefix_pinned(s, n, p - start);
                                            assert(s[n - 2] == buf@[start + n - 2]);
                                            assert(s[n - 1] == buf@[start + n - 1]);
                                        }
                                        assert(!partial_frame(s));
                                    }
                                    Err(FrameError::Malformed)
                                }
                            },
                        }
                    },
                }
            }
        } else if sig == ARRAY_SIGIL {
            proof {
                assert forall|n: int|
                    0 <= n <= s.len() && complete_frame(s.subrange(0, n)) implies false by {
                    lemma_complete_shape(s, n);
                }
            }
            Err(FrameError::UnsupportedVariant)
        } else {
            proof {
                assert forall|n: int|
                    0 <= n <= s.len() && complete_frame(s.subrange(0, n)) implies false by {
                    lemma_complete_shape(s, n);
                }
            }
            Err(FrameError::Malformed)
        }
    }

    /// Decode one complete frame from `buf[start..start + len]`.  The
    /// range must already have been confirmed complete by `check`; the
    /// returned frame owns copies of the bytes it represents.  The one
    /// way this can still fail is line text that is not UTF-8, which
    /// is fatal `Malformed`.
    #[verifier::rlimit(60)]
    pub fn parse(buf: &Vec<u8>, start: usize, len: usize) -> (r: Result<Frame, FrameError>)
        requires
            start + len <= buf.len(),
            complete_frame(buf@.subrange(start as int, start + len)),
        ensures
            ({
                let c = buf@.subrange(start as int, start + len);
                match r {
                    Ok(f) => frame_decodes(c) && parse_rel(c, f),
                    Err(e) => e == FrameError::Malformed && !frame_decodes(c),
                }
            }),
    {
        let ghost c = buf@.subrange(start as int, start + len);
        proof {
            assert(forall|j: int| 0 <= j < c.len() ==> c[j] == buf@[start + j]);
            assert(c.subrange(0, len as int) =~= c);
            lemma_complete_shape(c, len as int);
        }
        let sig = buf[start];
        assert(c[0] == sig);
        if sig == SIMPLE_SIGIL || sig == ERROR_SIGIL {
            proof {
                assert(!bulk_frame(c)) by {
                    if bulk_frame(c) {
                        let k = choose|k: int| bulk_shape(c, k);
                        assert(c[0] == BULK_SIGIL);
                    }
                }
                if sig == SIMPLE_SIGIL {
                    assert(simple_frame(c));
                } else {
                    assert(error_frame(c));
                }
            }
            let content = sub_vec(buf, start + 1, start + len - 2);
            let ghost gb = content@;
            proof {
                assert(gb =~= line_content(c));
            }
            match utf8_bytes_to_string(content) {
                Some(s) => {
                    if sig == SIMPLE_SIGIL {
                        Ok(Frame::Simple(s))
                    } else {
                        Ok(Frame::Error(s))
                    }
                },
                None => Err(FrameError::Malformed),
            }
        } else if sig == INTEGER_SIGIL {
            proof {
                assert(!bulk_frame(c)) by {
                    if bulk_frame(c) {
                        let k = choose|k: int| bulk_shape(c, k);
                        assert(c[0] == BULK_SIGIL);
                    }
                }
                assert(integer_frame(c));
                assert(buf@.subrange(start + 1, start + len - 2) =~= line_content(c));
            }
            match scan_decimal(buf, start + 1, start + len - 2) {
                Some(v) => Ok(Frame::Integer(v)),
                None => {
                    proof {
                        assert(false);
                    }
                    Ok(Frame::Null)
                },
            }
        } else {
            let second = buf[start + 1];
            assert(c[1] == second);
            if second == ERROR_SIGIL {
                proof {
                    assert(!bulk_frame(c)) by {
                        if bulk_frame(c) {
                            let k = choose|k: int| bulk_shape(c, k);
                            lemma_digits_val_nonneg(c.subrange(1, 1 + k));
                            assert(is_digit(c.subrange(1, 1 + k)[0]));
                            assert(c.subrange(1, 1 + k)[0] == c[1]);
                        }
                    }
                    assert(null_frame(c));
                }
                Ok(Frame::Null)
            } else {
                let ghost k0 = choose|k: int|
                    {
                        &&& #[trigger] bulk_shape(c, k)
                        &&& line_end(c, 1, 1 + k)
                        &&& len == k + 5 + digits_val(c.subrange(1, 1 + k))
                        &&& all_digits(c.subrange(1, 1 + k))
                        &&& digits_val(c.subrange(1, 1 + k)) <= MAX_BULK_LEN
                    };
                proof {
                    assert(bulk_shape(c, k0));
                    lemma_digits_val_nonneg(c.subrange(1, 1 + k0));
                    assert(crlf_at(c, 1 + k0));
                    assert(crlf_at(buf@, start + 1 + k0));
                }
                match find_crlf(buf, start + 1) {
                    None => {
                        proof {
                            assert(!crlf_at(buf@, start + 1 + k0));
                            assert(false);
                        }
                        Ok(Frame::Null)
                    },
                    Some(p) => {
                        proof {
                            if p < start + 1 + k0 {
                                assert(crlf_at(c, p - start));
                                assert(false);
                            }
                            if p > start + 1 + k0 {
                                assert(!crlf_at(buf@, start + 1 + k0));
                                assert(false);
                            }
                            assert(p == start + 1 + k0);
                        }
                        let k = p - start - 1;
                        let m = len - 5 - k;
                        let payload = sub_vec(buf, p + 2, p + 2 + m);
                        proof {
                            assert(payload@ =~= bulk_payload(c, k0));
                            assert forall|k2: int| #[trigger] bulk_shape(c, k2) implies payload@
                                == bulk_payload(c, k2) by {
                                lemma_bulk_shape_unique(c, k0, k2);
                            }
                        }
                        Ok(Frame::Bulk(payload))
                    },
                }
            }
        }
    }

    /// The wire bytes of this frame: `Malformed` when the UTF-8 bytes
    /// of a simple or error payload contain a CRLF pair, and
    /// `UnsupportedVariant` for an array, whose encoding this layer
    /// does not implement.
    pub fn encode(&self) -> (r: Result<Vec<u8>, FrameError>)
        ensures
            match r {
                Ok(v) => frame_well_formed(*self) && v@ == wire_of(*self),
                Err(e) => {
                    &&& (e == FrameError::UnsupportedVariant <==> self is Array)
                    &&& (e == FrameError::Malformed <==> !frame_well_formed(*self) && !(self
                        is Array))
                    &&& e != FrameError::NeedMoreData
                },
            },
            (r matches Ok(_)) <==> frame_well_formed(*self),
    {
        match self {
            Frame::Simple(s) => encode_line(SIMPLE_SIGIL, s),
            Frame::Error(s) => encode_line(ERROR_SIGIL, s),
            Frame::Integer(u) => {
                let mut v: Vec<u8> = Vec::new();
                v.push(INTEGER_SIGIL);
                let mut digits = u64_to_dec(*u);
                v.append(&mut digits);
                v.push(CR);
                v.push(LF);
                proof {
                    assert(v@ =~= wire_of(*self));
                }
                Ok(v)
            },
            Frame::Null => {
                let mut v: Vec<u8> = Vec::new();
                v.push(BULK_SIGIL);
                v.push(ERROR_SIGIL);
                v.push(49);
                v.push(CR);
                v.push(LF);
                proof {
                    assert(v@ =~= null_wire());
                }
                Ok(v)
            },
            Frame::Bulk(b) => {
                let mut v: Vec<u8> = Vec::new();
                v.push(BULK_SIGIL);
                let mut digits = u64_to_dec(b.len() as u64);
                v.append(&mut digits);
                v.push(CR);
                v.push(LF);
                v.extend_from_slice(b.as_slice());
                v.push(CR);
                v.push(LF);
                proof {
                    assert(b@.len() as u64 as nat == b@.len());
                    assert(v@ =~= wire_of(*self));
                }
                Ok(v)
            },
            Frame::Array(_) => Err(FrameError::UnsupportedVariant),
        }
    }
}

/// The line-frame encoder shared by the simple and error variants.
fn encode_line(sigil: u8, s: &String) -> (r: Result<Vec<u8>, FrameError>)
    requires
        sigil == SIMPLE_SIGIL || sigil == ERROR_SIGIL,
    ensures
        match r {
            Ok(v) => text_ok(s@) && v@ == seq![sigil] + encode_utf8(s@) + seq![CR, LF],
            Err(e) => e == FrameError::Malformed && !text_ok(s@),
        },
{
    let bytes = s.as_str().as_bytes_vec();
    proof {
        assert(bytes@ == encode_utf8(s@));
    }
    if has_crlf(&bytes) {
        return Err(FrameError::Malformed);
    }
    let mut v: Vec<u8> = Vec::new();
    v.push(sigil);
    let mut bytes = bytes;
    v.append(&mut bytes);
    v.push(CR);
    v.push(LF);
    proof {
        assert(v@ =~= seq![sigil] + encode_utf8(s@) + seq![CR, LF]);
    }
    Ok(v)
}

/// A buffer can start with at most one complete frame: two complete
/// prefixes have the same length.
pub proof fn lemma_frame_prefix_unique(s: Seq<u8>, n1: int, n2: int)
    requires
        0 <= n1 <= s.len(),
        0 <= n2 <= s.len(),
        complete_frame(s.subrange(0, n1)),
        complete_frame(s.subrange(0, n2)),
    ensures
        n1 == n2,
{
    lemma_complete_shape(s, n1);
    lemma_complete_shape(s, n2);
    if s[0] == SIMPLE_SIGIL || s[0] == ERROR_SIGIL || s[0] == INTEGER_SIGIL {
        lemma_line_end_unique(s, 1, n1 - 2, n2 - 2);
    } else if s[1] == ERROR_SIGIL {
    } else {
        let k1 = choose|k: int|
            {
                &&& #[trigger] bulk_shape(s.subrange(0, n1), k)
                &&& line_end(s, 1, 1 + k)
                &&& n1 == k + 5 + digits_val(s.subrange(1, 1 + k))
                &&& all_digits(s.subrange(1, 1 + k))
                &&& digits_val(s.subrange(1, 1 + k)) <= MAX_BULK_LEN
            };
        let k2 = choose|k: int|
            {
                &&& #[trigger] bulk_shape(s.subrange(0, n2), k)
                &&& line_end(s, 1, 1 + k)
                &&& n2 == k + 5 + digits_val(s.subrange(1, 1 + k))
                &&& all_digits(s.subrange(1, 1 + k))
                &&& digits_val(s.subrange(1, 1 + k)) <= MAX_BULK_LEN
            };
        lemma_line_end_unique(s, 1, 1 + k1, 1 + k2);
    }
}

/// The encoding of a well-formed, in-bounds frame is a complete frame
/// on the wire, variant for variant.
pub proof fn lemma_wire_complete(f: Frame)
    requires
        frame_in_bounds(f),
    ensures
        complete_frame(wire_of(f)),
        match f {
            Frame::Simple(x) => simple_frame(wire_of(f)) && line_content(wire_of(f))
                == encode_utf8(x@),
            Frame::Error(x) => error_frame(wire_of(f)) && line_content(wire_of(f)) == encode_utf8(
                x@,
            ),
            Frame::Integer(u) => integer_frame(wire_of(f)) && digits_val(
                line_content(wire_of(f)),
            ) == u,
            Frame::Null => null_frame(wire_of(f)),
            Frame::Bulk(v) => bulk_shape(wire_of(f), dec_repr(v@.len()).len() as int)
                && bulk_payload(wire_of(f), dec_repr(v@.len()).len() as int) == v@,
            Frame::Array(_) => false,
        },
{
    let w = wire_of(f);
    match f {
        Frame::Simple(x) | Frame::Error(x) => {
            let ab = encode_utf8(x@);
            assert(w.len() == ab.len() + 3);
            assert(forall|i: int| 0 <= i < ab.len() ==> w[i + 1] == ab[i]);
            assert(w[w.len() - 2] == CR && w[w.len() - 1] == LF);
            assert(crlf_at(w, w.len() - 2));
            assert forall|j: int| 1 <= j < w.len() - 2 implies !crlf_at(w, j) by {
                if j < w.len() - 3 {
                    assert(w[j] == ab[j - 1] && w[j + 1] == ab[j]);
                    assert(!crlf_at(ab, j - 1));
                } else {
                    assert(w[j + 1] == CR);
                }
            }
            assert(line_content(w) =~= ab);
        },
        Frame::Integer(u) => {
            lemma_dec_repr(u as nat);
            let d = dec_repr(u as nat);
            assert(w.len() == d.len() + 3);
            assert(forall|i: int| 0 <= i < d.len() ==> w[i + 1] == d[i]);
            assert(crlf_at(w, w.len() - 2));
            assert forall|j: int| 1 <= j < w.len() - 2 implies !crlf_at(w, j) by {
                if j < w.len() - 3 {
                    assert(w[j] == d[j - 1]);
                    assert(is_digit(d[j - 1]));
                } else {
                    assert(w[j + 1] == CR);
                }
            }
            assert(line_content(w) =~= d);
        },
        Frame::Null => {
        },
        Frame::Bulk(v) => {
            let m = v@.len();
            lemma_dec_repr(m);
            let d = dec_repr(m);
            let k = d.len() as int;
            assert(w.len() == k + 5 + m);
            assert(w[0] == BULK_SIGIL);
            assert(forall|i: int| 0 <= i < k ==> w[i + 1] == d[i]);
            assert(w[1 + k] == CR && w[2 + k] == LF);
            assert(forall|i: int| 0 <= i < m ==> w[k + 3 + i] == v@[i]);
            assert(w[w.len() - 2] == CR && w[w.len() - 1] == LF);
            assert(w.subrange(1, 1 + k) =~= d);
            assert(bulk_shape(w, k));
            assert(bulk_payload(w, k) =~= v@);
        },
        Frame::Array(_) => {
            assert(false);
        },
    }
}

/// Decoding the encoding of a frame gives the frame back: the two
/// directions of the wire format agree, message for message.
pub proof fn lemma_round_trip(f: Frame, g: Frame)
    requires
        frame_in_bounds(f),
        parse_rel(wire_of(f), g),
    ensures
        frame_eqv(g, f),
{
    let w = wire_of(f);
    lemma_wire_complete(f);
    match f {
        Frame::Simple(x) | Frame::Error(x) => {
            match g {
                Frame::Simple(y) | Frame::Error(y) => {
                    lemma_encode_utf8_injective(x@, y@);
                },
                Frame::Null => {
                    assert(w[0] == BULK_SIGIL);
                },
                Frame::Bulk(_) => {
                    let k = choose|k: int| bulk_shape(w, k);
                    assert(w[0] == BULK_SIGIL);
                },
                _ => {
                },
            }
        },
        Frame::Integer(u) => {
            match g {
                Frame::Null => {
                    assert(w[0] == BULK_SIGIL);
                },
                Frame::Bulk(_) => {
                    let k = choose|k: int| bulk_shape(w, k);
                    assert(w[0] == BULK_SIGIL);
                },
                _ => {
                },
            }
        },
        Frame::Null => {
            match g {
                Frame::Bulk(_) => {
                    let k = choose|k: int| bulk_shape(w, k);
                    lemma_digits_val_nonneg(w.subrange(1, 1 + k));
                    assert(is_digit(w.subrange(1, 1 + k)[0]));
                    assert(w.subrange(1, 1 + k)[0] == w[1]);
                },
                _ => {
                },
            }
        },
        Frame::Bulk(v) => {
            let k0 = dec_repr(v@.len()).len() as int;
            match g {
                Frame::Bulk(v2) => {
                    assert(bulk_shape(w, k0));
                    assert(v2@ == bulk_payload(w, k0));
                },
                Frame::Null => {
                    lemma_dec_repr(v@.len());
                    assert(w[1] == dec_repr(v@.len())[0]);
                    assert(is_digit(w[1]));
                },
                _ => {
                },
            }
        },
        Frame::Array(_) => {
        },
    }
}

/// Every strict prefix of a complete frame is a partial frame: while a
/// frame trickles in byte by byte, the scanner keeps asking for more
/// data and never reports a frame early or an error.
pub proof fn lemma_strict_prefix_partial(b: Seq<u8>, n: int)
    requires
        complete_frame(b),
        0 <= n < b.len(),
    ensures
        partial_frame(b.subrange(0, n)),
        !complete_frame(b.subrange(0, n)),
{
    let p = b.subrange(0, n);
    assert(forall|j: int| 0 <= j < n ==> p[j] == b[j]);
    assert(b.subrange(0, b.len() as int) =~= b);
    lemma_complete_shape(b, b.len() as int);
    if n == 0 {
    } else if b[0] == SIMPLE_SIGIL || b[0] == ERROR_SIGIL || b[0] == INTEGER_SIGIL {
        assert forall|j: int| 1 <= j < p.len() - 1 implies !crlf_at(p, j) by {
            assert(!crlf_at(b, j));
        }
        assert(no_crlf_from(p, 1));
    } else if b[1] == ERROR_SIGIL {
        assert(b == null_wire());
        if n == 1 {
        } else {
            assert forall|j: int| 1 <= j < p.len() - 1 implies !crlf_at(p, j) by {
                assert(!crlf_at(b, j));
            }
            assert(no_crlf_from(p, 1));
        }
    } else {
        let k = choose|k: int|
            {
                &&& #[trigger] bulk_shape(b.subrange(0, b.len() as int), k)
                &&& line_end(b, 1, 1 + k)
                &&& b.len() == k + 5 + digits_val(b.subrange(1, 1 + k))
                &&& all_digits(b.subrange(1, 1 + k))
                &&& digits_val(b.subrange(1, 1 + k)) <= MAX_BULK_LEN
            };
        lemma_digits_val_nonneg(b.subrange(1, 1 + k));
        if n == 1 {
        } else if n < k + 3 {
            assert forall|j: int| 1 <= j < p.len() - 1 implies !crlf_at(p, j) by {
                assert(!crlf_at(b, j));
            }
            assert(no_crlf_from(p, 1));
        } else {
            assert(p.subrange(1, 1 + k) =~= b.subrange(1, 1 + k));
            assert(crlf_at(p, 1 + k));
            assert forall|j: int| 1 <= j < 1 + k implies !crlf_at(p, j) by {
                assert(!crlf_at(b, j));
            }
            assert(line_end(p, 1, 1 + k));
            assert(p[1] == b.subrange(1, 1 + k)[0]);
            assert(is_digit(p[1]));
            assert(p.len() < (1 + k) + 4 + digits_val(p.subrange(1, 1 + k)));
            assert(partial_frame(p));
        }
    }
    if complete_frame(p) {
        lemma_frame_prefix_unique(b, n, b.len() as int);
    }
}

/// Two frames laid end to end in one buffer keep their own byte
/// spans: the only complete frame at the front of the concatenation is
/// the first frame, ending exactly at its own length.
pub proof fn lemma_two_frames(w1: Seq<u8>, w2: Seq<u8>)
    requires
        complete_frame(w1),
        complete_frame(w2),
    ensures
        (w1 + w2).subrange(0, w1.len() as int) == w1,
        (w1 + w2).subrange(w1.len() as int, (w1 + w2).len() as int) == w2,
        complete_frame((w1 + w2).subrange(0, w1.len() as int)),
        forall|n: int|
            0 <= n <= (w1 + w2).len() && complete_frame((w1 + w2).subrange(0, n)) ==> n
                == w1.len(),
{
    let b = w1 + w2;
    assert(b.subrange(0, w1.len() as int) =~= w1);
    assert(b.subrange(w1.len() as int, b.len() as int) =~= w2);
    assert forall|n: int|
        0 <= n <= b.len() && complete_frame(b.subrange(0, n)) implies n == w1.len() by {
        lemma_frame_prefix_unique(b, n, w1.len() as int);
    }
}

} // verus!
