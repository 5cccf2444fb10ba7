//! The packet codec: a streaming decoder for request frames and an
//! encoder that writes the response into the caller's buffer.
//!
//! A frame is an 8-byte header (four big-endian 16-bit fields: request id,
//! sequence number, datagram total, reserved) followed by an ASCII body.
//! The decoder accepts `get <key>\r\n` and
//! `set <key> <flags> <exptime> <bytes>\r\n<data>\r\n`; the encoder emits
//! `VALUE`, `STORED` and `NOT_STORED` responses, bit-exactly.

use vstd::prelude::*;

use crate::memb::{ClientValue, ClientValueModel, DecodeError, ServerValue, ServerValueModel};

verus! {

/// The position of the first `b` at or after `from`, or the length of `s`
/// if there is none.
pub open spec fn find_from(s: Seq<u8>, from: int, b: u8) -> int
    decreases s.len() - from,
{
    if from < 0 || from >= s.len() {
        s.len() as int
    } else if s[from] == b {
        from
    } else {
        find_from(s, from + 1, b)
    }
}

/// The position of the `\r` of the first `\r\n` pair at or after `from`,
/// or the length of `s` if there is none.
pub open spec fn find_crlf(s: Seq<u8>, from: int) -> int
    decreases s.len() - from,
{
    if from < 0 || from + 1 >= s.len() {
        s.len() as int
    } else if s[from] == ('\r' as u8) && s[from + 1] == ('\n' as u8) {
        from
    } else {
        find_crlf(s, from + 1)
    }
}

/// An ASCII decimal digit.
pub open spec fn is_digit(b: u8) -> bool {
    '0' as u8 <= b <= '9' as u8
}

/// Every byte is an ASCII decimal digit.
pub open spec fn all_digits(s: Seq<u8>) -> bool {
    forall|i: int| 0 <= i < s.len() ==> is_digit(#[trigger] s[i])
}

/// The number a digit string denotes.
pub open spec fn dec_value(s: Seq<u8>) -> int
    decreases s.len(),
{
    if s.len() == 0 {
        0
    } else {
        dec_value(s.drop_last()) * 10 + (s.last() - ('0' as u8))
    }
}

/// The shortest decimal digit string for `n`.
pub open spec fn dec_digits(n: int) -> Seq<u8>
    recommends
        n >= 0,
    decreases n,
{
    if n < 10 {
        seq![(n + ('0' as u8)) as u8]
    } else {
        dec_digits(n / 10).push((n % 10 + ('0' as u8)) as u8)
    }
}

/// Law: printing a number and reading the digits back round-trips. The
/// digits the encoder emits for flags and lengths are exactly what the
/// decoder's decimal reader accepts.
pub proof fn lemma_decimal_round_trip(n: int)
    requires
        n >= 0,
    ensures
        dec_digits(n).len() >= 1,
        all_digits(dec_digits(n)),
        dec_value(dec_digits(n)) == n,
    decreases n,
{
    vstd::arithmetic::div_mod::lemma_fundamental_div_mod(n, 10);
    if n < 10 {
        let s = dec_digits(n);
        assert(s.drop_last() =~= Seq::<u8>::empty());
        assert(dec_value(Seq::<u8>::empty()) == 0);
        assert(dec_value(s) == dec_value(s.drop_last()) * 10 + (s.last() - ('0' as u8)));
        assert(s.last() == (n + ('0' as u8)) as u8);
        assert(dec_value(s) == n);
    } else {
        lemma_decimal_round_trip(n / 10);
        let s = dec_digits(n);
        assert(s.drop_last() =~= dec_digits(n / 10));
        assert(s.last() == (n % 10 + ('0' as u8)) as u8);
        assert forall|i: int| 0 <= i < s.len() implies is_digit(#[trigger] s[i]) by {
            if i < s.len() - 1 {
                assert(s[i] == dec_digits(n / 10)[i]);
            }
        }
        assert(dec_value(s) == (n / 10) * 10 + n % 10);
    }
}

/// A digit string denotes a nonnegative number, and no prefix denotes
/// more than the whole.
pub proof fn lemma_dec_value_extend(s: Seq<u8>, m: int)
    requires
        all_digits(s),
        0 <= m <= s.len(),
    ensures
        0 <= dec_value(s.subrange(0, m)) <= dec_value(s),
    decreases s.len(),
{
    if s.len() == 0 {
        assert(s.subrange(0, m) =~= s);
    } else {
        let pre = s.drop_last();
        assert(all_digits(pre));
        lemma_dec_value_extend(pre, if m <= pre.len() as int {
            m
        } else {
            pre.len() as int
        });
        assert(is_digit(s.last()));
        if m <= pre.len() as int {
            assert(s.subrange(0, m) =~= pre.subrange(0, m));
        } else {
            assert(s.subrange(0, m) =~= s);
            assert(pre.subrange(0, pre.len() as int) =~= pre);
        }
    }
}

/// A found position lies between `from` and the end of `s`.
pub proof fn lemma_find_from_bounds(s: Seq<u8>, from: int, b: u8)
    requires
        0 <= from <= s.len(),
    ensures
        from <= find_from(s, from, b) <= s.len(),
    decreases s.len() - from,
{
    if from < s.len() && s[from] != b {
        lemma_find_from_bounds(s, from + 1, b);
    }
}

/// A found pair position lies between `from` and the end of `s`.
pub proof fn lemma_find_crlf_bounds(s: Seq<u8>, from: int)
    requires
        0 <= from <= s.len(),
    ensures
        from <= find_crlf(s, from) <= s.len(),
    decreases s.len() - from,
{
    if from + 1 < s.len() && !(s[from] == ('\r' as u8) && s[from + 1] == ('\n' as u8)) {
        lemma_find_crlf_bounds(s, from + 1);
    }
}

/// The 8-byte frame header: request id big-endian, sequence number 0,
/// datagram total 1, reserved 0.
pub open spec fn frame_header(req_id: u16) -> Seq<u8> {
    seq![(req_id / 256) as u8, (req_id % 256) as u8, 0u8, 0u8, 0u8, 1u8, 0u8, 0u8]
}

/// `VALUE ` (with its trailing space).
pub open spec fn value_label() -> Seq<u8> {
    seq!['V' as u8, 'A' as u8, 'L' as u8, 'U' as u8, 'E' as u8, ' ' as u8]
}

/// ` END\r\n`.
pub open spec fn end_label() -> Seq<u8> {
    seq![' ' as u8, 'E' as u8, 'N' as u8, 'D' as u8, '\r' as u8, '\n' as u8]
}

/// `STORED\r\n`.
pub open spec fn stored_label() -> Seq<u8> {
    seq!['S' as u8, 'T' as u8, 'O' as u8, 'R' as u8, 'E' as u8, 'D' as u8, '\r' as u8, '\n' as u8]
}

/// `NOT_STORED\r\n`.
pub open spec fn not_stored_label() -> Seq<u8> {
    seq![
        'N' as u8,
        'O' as u8,
        'T' as u8,
        '_' as u8,
        'S' as u8,
        'T' as u8,
        'O' as u8,
        'R' as u8,
        'E' as u8,
        'D' as u8,
        '\r' as u8,
        '\n' as u8,
    ]
}

/// `get `.
pub open spec fn get_label() -> Seq<u8> {
    seq!['g' as u8, 'e' as u8, 't' as u8, ' ' as u8]
}

/// `set `.
pub open spec fn set_label() -> Seq<u8> {
    seq!['s' as u8, 'e' as u8, 't' as u8, ' ' as u8]
}

/// The exact bytes a response encodes to. `NoReply` encodes to nothing:
/// no packet is sent. A `VALUE` line carries two spaces before the flags,
/// as the wire dialect has it.
pub open spec fn encoded_bytes(v: ServerValueModel) -> Seq<u8> {
    match v {
        ServerValueModel::Value { req_id, key, flags, data } => frame_header(req_id)
            + value_label() + key + seq![' ' as u8, ' ' as u8] + dec_digits(flags as int) + seq![
            ' ' as u8,
        ] + dec_digits(data.len() as int) + seq!['\r' as u8, '\n' as u8] + data + seq![
            '\r' as u8,
            '\n' as u8,
        ] + end_label(),
        ServerValueModel::Stored { req_id } => frame_header(req_id) + stored_label(),
        ServerValueModel::NotStored { req_id } => frame_header(req_id) + not_stored_label(),
        ServerValueModel::NoReply => Seq::empty(),
    }
}

/// The request id carried in a frame's first two bytes.
pub open spec fn req_id_of(s: Seq<u8>) -> u16
    recommends
        s.len() >= 2,
{
    (s[0] * 256 + s[1]) as u16
}

/// What decoding a request buffer yields.
///
/// A buffer shorter than the header, or one whose `set` body ends before
/// a required token, is `UnexpectedEof`; a first token other than `get `
/// or `set `, and a malformed or oversize flags field, is
/// `InvalidOpCode`. Otherwise the key runs to the delimiter the verb
/// calls for, the flags are read as decimal, the rest of the `set` header
/// line is skipped up to its `\r\n`, and the data runs to the next `\r`.
/// The header's sequence number, datagram total and reserved fields are
/// not enforced: a single-datagram receiver answers whatever arrives.
pub open spec fn decode_spec(s: Seq<u8>) -> Result<ClientValueModel, DecodeError> {
    if s.len() < 8 {
        Err(DecodeError::UnexpectedEof)
    } else if s.len() >= 12 && s.subrange(8, 12) == get_label() {
        let r = find_from(s, 12, '\r' as u8);
        if r == s.len() {
            Err(DecodeError::UnexpectedEof)
        } else {
            Ok(ClientValueModel::Get { req_id: req_id_of(s), key: s.subrange(12, r) })
        }
    } else if s.len() >= 12 && s.subrange(8, 12) == set_label() {
        let ke = find_from(s, 12, ' ' as u8);
        if ke == s.len() {
            Err(DecodeError::UnexpectedEof)
        } else {
            let fe = find_from(s, ke + 1, ' ' as u8);
            if fe == s.len() {
                Err(DecodeError::UnexpectedEof)
            } else {
                let fdigits = s.subrange(ke + 1, fe);
                if fdigits.len() == 0 || !all_digits(fdigits) || dec_value(fdigits)
                    > u32::MAX as int {
                    Err(DecodeError::InvalidOpCode)
                } else {
                    let nl = find_crlf(s, fe + 1);
                    if nl == s.len() {
                        Err(DecodeError::UnexpectedEof)
                    } else {
                        let ve = find_from(s, nl + 2, '\r' as u8);
                        if ve == s.len() {
                            Err(DecodeError::UnexpectedEof)
                        } else {
                            Ok(
                                ClientValueModel::Put {
                                    req_id: req_id_of(s),
                                    key: s.subrange(12, ke),
                                    flags: dec_value(fdigits) as u32,
                                    data: s.subrange(nl + 2, ve),
                                },
                            )
                        }
                    }
                }
            }
        }
    } else {
        Err(DecodeError::InvalidOpCode)
    }
}

/// Appends the bytes of `v` to `buf`.
fn push_vec(buf: &mut Vec<u8>, v: &Vec<u8>)
    ensures
        final(buf)@ == old(buf)@ + v@,
{
    let n: usize = v.len();
    for i in 0..n
        invariant
            n == v@.len(),
            buf@ =~= old(buf)@ + v@.subrange(0, i as int),
    {
        buf.push(v[i]);
        proof {
            assert(buf@ =~= old(buf)@ + v@.subrange(0, i + 1 as int));
        }
    }
    proof {
        assert(v@.subrange(0, n as int) =~= v@);
        assert(buf@ =~= old(buf)@ + v@);
    }
}

/// Appends the decimal digits of `n` to `buf`.
fn push_dec_u32(buf: &mut Vec<u8>, n: u32)
    ensures
        final(buf)@ == old(buf)@ + dec_digits(n as int),
    decreases n,
{
    if n >= 10 {
        push_dec_u32(buf, n / 10);
        buf.push((n % 10) as u8 + ('0' as u8));
        proof {
            assert(buf@ =~= old(buf)@ + dec_digits(n as int));
        }
    } else {
        buf.push(n as u8 + ('0' as u8));
        proof {
            assert(buf@ =~= old(buf)@ + dec_digits(n as int));
        }
    }
}

/// Appends the decimal digits of `n` to `buf`.
fn push_dec_usize(buf: &mut Vec<u8>, n: usize)
    ensures
        final(buf)@ == old(buf)@ + dec_digits(n as int),
    decreases n,
{
    if n >= 10 {
        push_dec_usize(buf, n / 10);
        buf.push((n % 10) as u8 + ('0' as u8));
        proof {
            assert(buf@ =~= old(buf)@ + dec_digits(n as int));
        }
    } else {
        buf.push(n as u8 + ('0' as u8));
        proof {
            assert(buf@ =~= old(buf)@ + dec_digits(n as int));
        }
    }
}

/// Appends both bytes of `x`, big-endian.
fn push_u16_be(buf: &mut Vec<u8>, x: u16)
    ensures
        final(buf)@ == old(buf)@ + seq![(x / 256) as u8, (x % 256) as u8],
{
    buf.push((x / 256) as u8);
    buf.push((x % 256) as u8);
    proof {
        assert(buf@ =~= old(buf)@ + seq![(x / 256) as u8, (x % 256) as u8]);
    }
}

/// A copy of `v[i..j]`.
fn copy_range(v: &Vec<u8>, i: usize, j: usize) -> (r: Vec<u8>)
    requires
        i <= j <= v@.len(),
    ensures
        r@ == v@.subrange(i as int, j as int),
{
    let mut r: Vec<u8> = Vec::new();
    let mut m: usize = i;
    while m < j
        invariant
            i <= m <= j <= v@.len(),
            r@ =~= v@.subrange(i as int, m as int),
        decreases j - m,
    {
        r.push(v[m]);
        m = m + 1;
        proof {
            assert(r@ =~= v@.subrange(i as int, m as int));
        }
    }
    proof {
        assert(r@ =~= v@.subrange(i as int, j as int));
    }
    r
}

/// Reads the decimal number in `v[i..j]`: its value if the range is a
/// nonempty string of digits denoting at most `u32::MAX`, absence
/// otherwise.
fn parse_u32(v: &Vec<u8>, i: usize, j: usize) -> (r: Option<u32>)
    requires
        i <= j <= v@.len(),
    ensures
        ({
            let s = v@.subrange(i as int, j as int);
            match r {
                Some(f) => s.len() > 0 && all_digits(s) && dec_value(s) <= u32::MAX as int && f
                    as int == dec_value(s),
                None => s.len() == 0 || !all_digits(s) || dec_value(s) > u32::MAX as int,
            }
        }),
{
    let ghost s = v@.subrange(i as int, j as int);
    if i == j {
        return None;
    }
    let mut acc: u64 = 0;
    let mut m: usize = i;
    while m < j
        invariant
            i <= m <= j <= v@.len(),
            s == v@.subrange(i as int, j as int),
            acc <= u32::MAX,
            all_digits(s.subrange(0, m - i)),
            acc as int == dec_value(s.subrange(0, m - i)),
        decreases j - m,
    {
        let b = v[m];
        if b < ('0' as u8) || b > ('9' as u8) {
            proof {
                assert(s[m - i] == b);
                assert(!all_digits(s));
            }
            return None;
        }
        acc = acc * 10 + ((b - ('0' as u8)) as u64);
        m = m + 1;
        proof {
            let pre = s.subrange(0, m - i - 1);
            let cur = s.subrange(0, m - i);
            assert(cur.drop_last() =~= pre);
            assert(cur.last() == b);
        }
        if acc > (u32::MAX as u64) {
            proof {
                if all_digits(s) {
                    lemma_dec_value_extend(s, m - i);
                }
            }
            return None;
        }
    }
    proof {
        assert(s.subrange(0, j - i) =~= s);
    }
    Some(acc as u32)
}

/// The request id a response echoes.
pub open spec fn resp_req_id(v: ServerValueModel) -> u16
    recommends
        !(v is NoReply),
{
    match v {
        ServerValueModel::Value { req_id, .. } => req_id,
        ServerValueModel::Stored { req_id } => req_id,
        ServerValueModel::NotStored { req_id } => req_id,
        ServerValueModel::NoReply => 0,
    }
}

/// Law: every response frame begins with the eight header bytes
/// `[R >> 8, R & 0xff, 0, 0, 0, 1, 0, 0]`, `R` the echoed request id.
pub proof fn lemma_frame_header_echo(v: ServerValueModel)
    requires
        !(v is NoReply),
    ensures
        encoded_bytes(v).len() >= 8,
        encoded_bytes(v).subrange(0, 8) == frame_header(resp_req_id(v)),
        frame_header(resp_req_id(v)) == seq![
            ((resp_req_id(v) >> 8) as u8),
            ((resp_req_id(v) & 0xff) as u8),
            0u8,
            0u8,
            0u8,
            1u8,
            0u8,
            0u8,
        ],
{
    let r = resp_req_id(v);
    assert(r / 256 == r >> 8 && r % 256 == r & 0xff) by (bit_vector);
    assert(frame_header(r) =~= seq![
        ((r >> 8) as u8),
        ((r & 0xff) as u8),
        0u8,
        0u8,
        0u8,
        1u8,
        0u8,
        0u8,
    ]);
    match v {
        ServerValueModel::Value { .. } => {
            assert(encoded_bytes(v).subrange(0, 8) =~= frame_header(r));
        },
        ServerValueModel::Stored { .. } => {
            assert(encoded_bytes(v).subrange(0, 8) =~= frame_header(r));
        },
        ServerValueModel::NotStored { .. } => {
            assert(encoded_bytes(v).subrange(0, 8) =~= frame_header(r));
        },
        ServerValueModel::NoReply => {},
    }
}

/// A streaming decoder over one request buffer. It takes the buffer at
/// construction and hands it back through [`Decoder::destroy`], so the
/// response can be written into the same allocation.
#[derive(Debug)]
pub struct Decoder {
    buf_bulk: bool,
    /// The request buffer.
    pub reader: Vec<u8>,
    read_until: usize,
}

impl Decoder {
    /// The buffer's bytes.
    pub closed spec fn spec_reader(&self) -> Seq<u8> {
        self.reader@
    }

    /// The read cursor.
    pub closed spec fn spec_pos(&self) -> int {
        self.read_until as int
    }

    /// Whether bulk buffering was asked for.
    pub closed spec fn spec_buf_bulk(&self) -> bool {
        self.buf_bulk
    }

    /// The cursor never passes the end of the buffer.
    pub closed spec fn wf(&self) -> bool {
        self.read_until as int <= self.reader@.len()
    }

    /// A decoder over `reader`, cursor at the start.
    pub fn new(reader: Vec<u8>) -> (d: Decoder)
        ensures
            d.spec_reader() == reader@,
            d.spec_pos() == 0,
            !d.spec_buf_bulk(),
            d.wf(),
    {
        Decoder { buf_bulk: false, reader, read_until: 0 }
    }

    /// A decoder over `reader` with bulk buffering asked for.
    pub fn with_buf_bulk(reader: Vec<u8>) -> (d: Decoder)
        ensures
            d.spec_reader() == reader@,
            d.spec_pos() == 0,
            d.spec_buf_bulk(),
            d.wf(),
    {
        Decoder { buf_bulk: true, reader, read_until: 0 }
    }

    /// Hands the buffer back, its contents untouched.
    pub fn destroy(self) -> (r: Vec<u8>)
        ensures
            r@ == self.spec_reader(),
    {
        self.reader
    }

    /// Moves the cursor to `until`.
    fn set_until(&mut self, until: usize)
        requires
            until as int <= old(self).reader@.len(),
        ensures
            final(self).reader@ == old(self).reader@,
            final(self).spec_buf_bulk() == old(self).spec_buf_bulk(),
            final(self).spec_pos() == until as int,
            final(self).wf(),
    {
        self.read_until = until;
    }

    /// Copies the next `buf.len()` bytes of the buffer into `buf` and
    /// advances the cursor past them.
    #[verifier::loop_isolation(false)]
    pub fn read_exact(&mut self, buf: &mut Vec<u8>) -> (r: Result<(), DecodeError>)
        requires
            old(self).wf(),
            old(buf)@.len() <= old(self).spec_reader().len() - old(self).spec_pos(),
        ensures
            final(self).spec_reader() == old(self).spec_reader(),
            final(self).spec_buf_bulk() == old(self).spec_buf_bulk(),
            final(self).spec_pos() == old(self).spec_pos() + old(buf)@.len(),
            final(self).wf(),
            r is Ok,
            final(buf)@ == old(self).spec_reader().subrange(
                old(self).spec_pos(),
                old(self).spec_pos() + old(buf)@.len(),
            ),
    {
        let n: usize = buf.len();
        let start: usize = self.read_until;
        let total: usize = self.reader.len();
        proof {
            assert(start + n <= total);
        }
        let mut i: usize = 0;
        while i < n
            invariant
                i <= n,
                buf@.len() == n,
                start + n <= self.reader@.len(),
                forall|m: int|
                    0 <= m < i ==> buf@[m] == old(self).reader@[old(self).spec_pos() + m],
            decreases n - i,
        {
            let b = self.reader[start + i];
            buf.set(i, b);
            i = i + 1;
        }
        self.read_until = start + n;
        proof {
            assert(buf@ =~= old(self).reader@.subrange(
                old(self).spec_pos(),
                old(self).spec_pos() + n as int,
            ));
        }
        Ok(())
    }

    /// Advances past the first `byte` at or after the cursor and returns
    /// the bounds of what was read, delimiter included; if the byte is
    /// absent, leaves the cursor alone and returns an empty range.
    #[verifier::loop_isolation(false)]
    fn read_until(&mut self, byte: u8) -> (r: (usize, usize))
        requires
            old(self).wf(),
        ensures
            final(self).reader@ == old(self).reader@,
            final(self).spec_buf_bulk() == old(self).spec_buf_bulk(),
            final(self).wf(),
            ({
                let f = find_from(old(self).reader@, old(self).spec_pos(), byte);
                if f < old(self).reader@.len() as int {
                    r.0 as int == old(self).spec_pos() && r.1 as int == f + 1
                        && final(self).spec_pos() == f + 1
                } else {
                    r.0 == r.1 && final(self).spec_pos() == old(self).spec_pos()
                }
            }),
    {
        proof {
            lemma_find_from_bounds(self.reader@, self.read_until as int, byte);
        }
        let start: usize = self.read_until;
        let n: usize = self.reader.len();
        let mut i: usize = start;
        while i < n
            invariant
                *self == *old(self),
                start <= i <= n,
                n == self.reader@.len(),
                start as int == old(self).spec_pos(),
                find_from(self.reader@, start as int, byte) == find_from(
                    self.reader@,
                    i as int,
                    byte,
                ),
            decreases n - i,
        {
            if self.reader[i] == byte {
                self.read_until = i + 1;
                return (start, i + 1);
            }
            i = i + 1;
        }
        (start, start)
    }

    /// Advances to just past the first `\r\n` pair at or after the
    /// cursor; reports whether one was found (the cursor does not move
    /// otherwise).
    #[verifier::loop_isolation(false)]
    fn skip_until_newline(&mut self) -> (found: bool)
        requires
            old(self).wf(),
        ensures
            final(self).reader@ == old(self).reader@,
            final(self).spec_buf_bulk() == old(self).spec_buf_bulk(),
            final(self).wf(),
            ({
                let c = find_crlf(old(self).reader@, old(self).spec_pos());
                if c < old(self).reader@.len() as int {
                    found && final(self).spec_pos() == c + 2
                } else {
                    !found && final(self).spec_pos() == old(self).spec_pos()
                }
            }),
    {
        proof {
            lemma_find_crlf_bounds(self.reader@, self.read_until as int);
        }
        let start: usize = self.read_until;
        let n: usize = self.reader.len();
        if n < 2 {
            return false;
        }
        let lim: usize = n - 1;
        let mut i: usize = start;
        while i < lim
            invariant
                *self == *old(self),
                start <= i,
                i <= n,
                lim == n - 1,
                n == self.reader@.len(),
                start as int == old(self).spec_pos(),
                find_crlf(self.reader@, start as int) == find_crlf(self.reader@, i as int),
            decreases n - i,
        {
            if self.reader[i] == ('\r' as u8) && self.reader[i + 1] == ('\n' as u8) {
                self.read_until = i + 2;
                return true;
            }
            i = i + 1;
        }
        false
    }

    /// Decodes the frame in the buffer: the result is exactly
    /// `decode_spec` of the buffer's bytes, which the decoder leaves
    /// untouched.
    pub fn decode(&mut self) -> (r: Result<ClientValue, DecodeError>)
        requires
            old(self).wf(),
        ensures
            final(self).spec_reader() == old(self).spec_reader(),
            final(self).spec_buf_bulk() == old(self).spec_buf_bulk(),
            final(self).wf(),
            match r {
                Ok(v) => decode_spec(old(self).spec_reader()) == Ok::<
                    ClientValueModel,
                    DecodeError,
                >(v@),
                Err(e) => decode_spec(old(self).spec_reader()) == Err::<
                    ClientValueModel,
                    DecodeError,
                >(e),
            },
    {
        let ghost s = self.reader@;
        if self.reader.len() < 8 {
            return Err(DecodeError::UnexpectedEof);
        }
        let b0 = self.reader[0];
        let b1 = self.reader[1];
        let request_id: u16 = (b0 as u16) * 256 + (b1 as u16);
        proof {
            assert(request_id == req_id_of(s));
        }
        if self.reader.len() < 12 {
            return Err(DecodeError::InvalidOpCode);
        }
        let o0 = self.reader[8];
        let o1 = self.reader[9];
        let o2 = self.reader[10];
        let o3 = self.reader[11];
        let is_get = o0 == ('g' as u8) && o1 == ('e' as u8) && o2 == ('t' as u8) && o3 == (
        ' ' as u8);
        let is_set = o0 == ('s' as u8) && o1 == ('e' as u8) && o2 == ('t' as u8) && o3 == (
        ' ' as u8);
        proof {
            if is_get {
                assert(s.subrange(8, 12) =~= get_label());
            } else if s.subrange(8, 12) == get_label() {
                assert(s[8] == s.subrange(8, 12)[0] && s[9] == s.subrange(8, 12)[1] && s[10]
                    == s.subrange(8, 12)[2] && s[11] == s.subrange(8, 12)[3]);
                assert(false);
            }
            if is_set {
                assert(s.subrange(8, 12) =~= set_label());
            } else if s.subrange(8, 12) == set_label() {
                assert(s[8] == s.subrange(8, 12)[0] && s[9] == s.subrange(8, 12)[1] && s[10]
                    == s.subrange(8, 12)[2] && s[11] == s.subrange(8, 12)[3]);
                assert(false);
            }
        }
        if is_get {
            self.set_until(12);
            proof {
                lemma_find_from_bounds(s, 12, '\r' as u8);
            }
            let (a, b) = self.read_until('\r' as u8);
            if b == a {
                return Err(DecodeError::UnexpectedEof);
            }
            let key = copy_range(&self.reader, a, b - 1);
            return Ok(ClientValue::Get(request_id, key));
        }
        if !is_set {
            return Err(DecodeError::InvalidOpCode);
        }
        self.set_until(12);
        proof {
            lemma_find_from_bounds(s, 12, ' ' as u8);
        }
        let (ka, kb) = self.read_until(' ' as u8);
        if kb == ka {
            return Err(DecodeError::UnexpectedEof);
        }
        let key = copy_range(&self.reader, ka, kb - 1);
        proof {
            lemma_find_from_bounds(s, find_from(s, 12, ' ' as u8) + 1, ' ' as u8);
        }
        let (fa, fb) = self.read_until(' ' as u8);
        if fb == fa {
            return Err(DecodeError::UnexpectedEof);
        }
        let flags = match parse_u32(&self.reader, fa, fb - 1) {
            Some(f) => f,
            None => {
                return Err(DecodeError::InvalidOpCode);
            },
        };
        proof {
            lemma_find_crlf_bounds(s, self.spec_pos());
        }
        let found = self.skip_until_newline();
        if !found {
            return Err(DecodeError::UnexpectedEof);
        }
        proof {
            lemma_find_from_bounds(s, self.spec_pos(), '\r' as u8);
        }
        let (va, vb) = self.read_until('\r' as u8);
        if vb == va {
            return Err(DecodeError::UnexpectedEof);
        }
        let data = copy_range(&self.reader, va, vb - 1);
        Ok(ClientValue::Put(request_id, key, flags, data))
    }
}

/// Writes the response frame for `value` into `buf`, replacing the
/// buffer's contents in place. `NoReply` carries no frame and is
/// excluded.
#[verifier::rlimit(50)]
pub fn buf_encode(value: &ServerValue, buf: &mut Vec<u8>)
    requires
        !(value@ is NoReply),
    ensures
        final(buf)@ == encoded_bytes(value@),
{
    buf.clear();
    match value {
        ServerValue::Value(request_id, k, flags, v) => {
            push_u16_be(buf, *request_id);
            push_u16_be(buf, 0);
            push_u16_be(buf, 1);
            push_u16_be(buf, 0);
            buf.push('V' as u8);
            buf.push('A' as u8);
            buf.push('L' as u8);
            buf.push('U' as u8);
            buf.push('E' as u8);
            buf.push(' ' as u8);
            push_vec(buf, k);
            buf.push(' ' as u8);
            buf.push(' ' as u8);
            push_dec_u32(buf, *flags);
            buf.push(' ' as u8);
            push_dec_usize(buf, v.len());
            buf.push('\r' as u8);
            buf.push('\n' as u8);
            push_vec(buf, v);
            buf.push('\r' as u8);
            buf.push('\n' as u8);
            buf.push(' ' as u8);
            buf.push('E' as u8);
            buf.push('N' as u8);
            buf.push('D' as u8);
            buf.push('\r' as u8);
            buf.push('\n' as u8);
            proof {
                assert(buf@ =~= encoded_bytes(value@));
            }
        },
        ServerValue::Stored(request_id) => {
            push_u16_be(buf, *request_id);
            push_u16_be(buf, 0);
            push_u16_be(buf, 1);
            push_u16_be(buf, 0);
            buf.push('S' as u8);
            buf.push('T' as u8);
            buf.push('O' as u8);
            buf.push('R' as u8);
            buf.push('E' as u8);
            buf.push('D' as u8);
            buf.push('\r' as u8);
            buf.push('\n' as u8);
            proof {
                assert(buf@ =~= encoded_bytes(value@));
            }
        },
        ServerValue::NotStored(request_id) => {
            push_u16_be(buf, *request_id);
            push_u16_be(buf, 0);
            push_u16_be(buf, 1);
            push_u16_be(buf, 0);
            buf.push('N' as u8);
            buf.push('O' as u8);
            buf.push('T' as u8);
            buf.push('_' as u8);
            buf.push('S' as u8);
            buf.push('T' as u8);
            buf.push('O' as u8);
            buf.push('R' as u8);
            buf.push('E' as u8);
            buf.push('D' as u8);
            buf.push('\r' as u8);
            buf.push('\n' as u8);
            proof {
                assert(buf@ =~= encoded_bytes(value@));
            }
        },
        ServerValue::NoReply => {
            proof {
                assert(false);
            }
        },
    }
}

/// Encodes `value` into the buffer passed in, reusing its allocation,
/// and returns it.
pub fn encode_with_buf(res: Vec<u8>, value: &ServerValue) -> (r: Vec<u8>)
    requires
        !(value@ is NoReply),
    ensures
        r@ == encoded_bytes(value@),
{
    let mut res = res;
    buf_encode(value, &mut res);
    res
}

/// Encodes `value` into a fresh buffer.
pub fn encode(value: &ServerValue) -> (r: Vec<u8>)
    requires
        !(value@ is NoReply),
    ensures
        r@ == encoded_bytes(value@),
{
    let mut res: Vec<u8> = Vec::new();
    buf_encode(value, &mut res);
    res
}

/// Reads a big-endian 32-bit word from the first four bytes of `x`.
pub fn slice_to_u32(x: &[u8]) -> (r: u32)
    requires
        x@.len() >= 4,
    ensures
        r as int == x@[0] * 0x100_0000 + x@[1] * 0x1_0000 + x@[2] * 256 + x@[3],
{
    let b0 = *vstd::slice::slice_index_get(x, 0);
    let b1 = *vstd::slice::slice_index_get(x, 1);
    let b2 = *vstd::slice::slice_index_get(x, 2);
    let b3 = *vstd::slice::slice_index_get(x, 3);
    (b0 as u32) * 0x100_0000 + (b1 as u32) * 0x1_0000 + (b2 as u32) * 256 + (b3 as u32)
}

} // verus!
