//! Deterministic binary encoding: the error type, the `Codec` trait, and the
//! encodings of integers and booleans.
use vstd::prelude::*;

verus! {

/// Why a byte sequence was refused by a decoder.
#[derive(Debug, Clone, Copy, PartialEq, Eq, Structural)]
pub enum DecodeError {
    /// The input ended before the value did.
    ShortRead,
    /// A variable-length integer was written in a longer form than its value needs.
    NonCanonicalInteger,
    /// A decoded integer does not fit the target type.
    IntegerOverflow,
    /// A discriminant byte other than the ones defined.
    InvalidFlag,
    /// Map or set keys that are not in ascending order.
    UnsortedKeys,
    /// The same key twice in a map or set.
    DuplicateKey,
    /// String bytes that are not UTF-8.
    InvalidUtf8,
    /// A sub-second part of a time value that is one second or more.
    InvalidNanos,
    /// A time value that does not fit the representable range.
    TimeOverflow,
    /// Bytes left over after a value that should fill the whole input.
    TrailingBytes,
}

impl DecodeError {
    /// A human-readable cause.
    pub fn message(&self) -> &'static str {
        match self {
            DecodeError::ShortRead => "unexpected end of input",
            DecodeError::NonCanonicalInteger => "non-canonical variable-length integer",
            DecodeError::IntegerOverflow => "integer out of range for its type",
            DecodeError::InvalidFlag => "invalid discriminant byte",
            DecodeError::UnsortedKeys => "non-canonical encoding: keys out of order",
            DecodeError::DuplicateKey => "non-canonical encoding: duplicate key",
            DecodeError::InvalidUtf8 => "string is not valid UTF-8",
            DecodeError::InvalidNanos => "sub-second nanoseconds out of range",
            DecodeError::TimeOverflow => "time value out of range",
            DecodeError::TrailingBytes => "trailing bytes after value",
        }
    }
}

/// `256` raised to `n`.
pub open spec fn pow256(n: nat) -> nat
    decreases n,
{
    if n == 0 {
        1
    } else {
        256 * pow256((n - 1) as nat)
    }
}

/// The `n` lowest bytes of `v`, least significant first.
pub open spec fn le_digits(v: nat, n: nat) -> Seq<u8>
    decreases n,
{
    if n == 0 {
        Seq::empty()
    } else {
        seq![(v % 256) as u8] + le_digits(v / 256, (n - 1) as nat)
    }
}

/// The `n` lowest bytes of `v`, most significant first.
pub open spec fn be_bytes(v: nat, n: nat) -> Seq<u8> {
    Seq::new(n, |j: int| le_digits(v, n)[n - 1 - j])
}

/// The number that the bytes spell, most significant first.
pub open spec fn be_value(s: Seq<u8>) -> nat
    decreases s.len(),
{
    if s.len() == 0 {
        0
    } else {
        (be_value(s.drop_last()) * 256 + s.last()) as nat
    }
}

proof fn lemma_le_digits_len(v: nat, n: nat)
    ensures
        le_digits(v, n).len() == n,
    decreases n,
{
    if n > 0 {
        lemma_le_digits_len(v / 256, (n - 1) as nat);
    }
}

proof fn lemma_be_bytes_step(v: nat, n: nat)
    requires
        n > 0,
    ensures
        be_bytes(v, n) == be_bytes(v / 256, (n - 1) as nat).push((v % 256) as u8),
{
    lemma_le_digits_len(v, n);
    lemma_le_digits_len(v / 256, (n - 1) as nat);
    assert(be_bytes(v, n) =~= be_bytes(v / 256, (n - 1) as nat).push((v % 256) as u8));
}

/// Writing `n` bytes and reading them back gives the number, when it fits.
pub proof fn lemma_be_round_trip(v: nat, n: nat)
    requires
        v < pow256(n),
    ensures
        be_bytes(v, n).len() == n,
        be_value(be_bytes(v, n)) == v,
    decreases n,
{
    if n == 0 {
        assert(be_bytes(v, n) =~= Seq::<u8>::empty());
    } else {
        lemma_be_bytes_step(v, n);
        let p = pow256((n - 1) as nat);
        assert(v / 256 < p) by (nonlinear_arith)
            requires
                v < 256 * p,
        ;
        lemma_be_round_trip(v / 256, (n - 1) as nat);
        let s = be_bytes(v, n);
        assert(s.drop_last() =~= be_bytes(v / 256, (n - 1) as nat));
    }
}

/// A number spelled with `n` bytes is below `256^n`.
pub proof fn lemma_be_value_bound(s: Seq<u8>)
    ensures
        be_value(s) < pow256(s.len()),
    decreases s.len(),
{
    if s.len() > 0 {
        lemma_be_value_bound(s.drop_last());
        let a = be_value(s.drop_last());
        let p = pow256(s.drop_last().len());
        let x = s.last() as nat;
        assert(a * 256 + x < 256 * p) by (nonlinear_arith)
            requires
                a < p,
                x < 256,
        ;
    }
}

proof fn lemma_pow256_values()
    ensures
        pow256(1) == 0x100,
        pow256(2) == 0x1_0000,
        pow256(4) == 0x1_0000_0000,
        pow256(7) == 0x100_0000_0000_0000,
        pow256(8) == 0x1_0000_0000_0000_0000,
{
    reveal_with_fuel(pow256, 9);
}

/// BigSize forms are at most nine bytes long.
pub proof fn lemma_bigsize_len(v: u64)
    ensures
        1 <= bigsize_bytes(v).len() <= 9,
{
    lemma_pow256_values();
    if v > 0xFC {
        let w: nat = if v <= 0xFFFF {
            2
        } else if v <= 0xFFFF_FFFF {
            4
        } else {
            8
        };
        lemma_be_round_trip(v as nat, w);
    }
}

/// Appends `v` as `n` big-endian bytes.
fn write_be(out: &mut Vec<u8>, v: u64, n: usize)
    requires
        1 <= n <= 8,
        v < pow256(n as nat),
    ensures
        final(out)@ == old(out)@ + be_bytes(v as nat, n as nat),
{
    let mut le: Vec<u8> = Vec::new();
    let mut rest: u64 = v;
    let mut i: usize = 0;
    while i < n
        invariant
            i <= n,
            le@ + le_digits(rest as nat, (n - i) as nat) == le_digits(v as nat, n as nat),
        decreases n - i,
    {
        let ghost before = le@;
        le.push((rest % 256) as u8);
        assert(le@ + le_digits((rest / 256) as nat, (n - i - 1) as nat) =~= before + le_digits(
            rest as nat,
            (n - i) as nat,
        ));
        rest = rest / 256;
        i = i + 1;
    }
    proof {
        assert(le_digits(rest as nat, 0) =~= Seq::<u8>::empty());
        assert(le@ =~= le_digits(v as nat, n as nat));
        lemma_le_digits_len(v as nat, n as nat);
    }
    let ghost start = out@;
    let mut j: usize = 0;
    while j < n
        invariant
            j <= n,
            le@.len() == n,
            le@ == le_digits(v as nat, n as nat),
            out@ == start + be_bytes(v as nat, n as nat).take(j as int),
        decreases n - j,
    {
        out.push(le[n - 1 - j]);
        j = j + 1;
        assert(out@ =~= start + be_bytes(v as nat, n as nat).take(j as int));
    }
    assert(be_bytes(v as nat, n as nat).take(n as int) =~= be_bytes(v as nat, n as nat));
}

/// Reads `n` big-endian bytes at `pos`.
fn read_be(b: &[u8], pos: usize, n: usize) -> (r: u64)
    requires
        n <= 8,
        pos + n <= b@.len(),
    ensures
        r == be_value(b@.subrange(pos as int, pos + n)),
{
    let len = b.len();
    let mut acc: u64 = 0;
    let mut i: usize = 0;
    while i < n
        invariant
            b@.len() == len,
            n <= 8,
            i <= n,
            pos + n <= b@.len(),
            acc == be_value(b@.subrange(pos as int, pos + i)),
        decreases n - i,
    {
        proof {
            lemma_be_value_bound(b@.subrange(pos as int, pos + i));
            lemma_pow256_values();
            lemma_pow256_monotonic(i as nat, 7);
            assert(b@.subrange(pos as int, pos + i + 1).drop_last() =~= b@.subrange(
                pos as int,
                pos + i,
            ));
        }
        acc = acc * 256 + b[pos + i] as u64;
        i = i + 1;
    }
    acc
}

proof fn lemma_pow256_monotonic(a: nat, b: nat)
    requires
        a <= b,
    ensures
        pow256(a) <= pow256(b),
    decreases b,
{
    if a < b {
        lemma_pow256_monotonic(a, (b - 1) as nat);
    }
}

/// The BigSize form of an integer: one byte below `0xFD`, otherwise a marker
/// byte and the value in the shortest of two, four or eight big-endian bytes.
pub open spec fn bigsize_bytes(v: u64) -> Seq<u8> {
    if v <= 0xFC {
        seq![v as u8]
    } else if v <= 0xFFFF {
        seq![0xFDu8] + be_bytes(v as nat, 2)
    } else if v <= 0xFFFF_FFFF {
        seq![0xFEu8] + be_bytes(v as nat, 4)
    } else {
        seq![0xFFu8] + be_bytes(v as nat, 8)
    }
}

/// Reads a BigSize of `width` bytes after its marker; refuses a value
/// below `min`, which has a shorter form.
pub open spec fn bigsize_wide(b: Seq<u8>, width: nat, min: nat) -> Result<(u64, nat), DecodeError> {
    if b.len() < 1 + width {
        Err(DecodeError::ShortRead)
    } else if be_value(b.subrange(1, 1 + width as int)) < min {
        Err(DecodeError::NonCanonicalInteger)
    } else {
        Ok((be_value(b.subrange(1, 1 + width as int)) as u64, 1 + width))
    }
}

/// Decoding of a BigSize at the start of `b`: the value and the bytes used.
pub open spec fn bigsize_decoding(b: Seq<u8>) -> Result<(u64, nat), DecodeError> {
    if b.len() == 0 {
        Err(DecodeError::ShortRead)
    } else if b[0] == 0xFF {
        bigsize_wide(b, 8, 0x1_0000_0000)
    } else if b[0] == 0xFE {
        bigsize_wide(b, 4, 0x1_0000)
    } else if b[0] == 0xFD {
        bigsize_wide(b, 2, 0xFD)
    } else {
        Ok((b[0] as u64, 1))
    }
}

/// A BigSize read back from its encoding, whatever follows it.
pub proof fn lemma_bigsize_round_trip(v: u64, rest: Seq<u8>)
    ensures
        bigsize_decoding(bigsize_bytes(v) + rest) == Ok::<(u64, nat), DecodeError>(
            (v, bigsize_bytes(v).len()),
        ),
{
    lemma_pow256_values();
    let b = bigsize_bytes(v) + rest;
    if v <= 0xFC {
    } else {
        let w: nat = if v <= 0xFFFF {
            2
        } else if v <= 0xFFFF_FFFF {
            4
        } else {
            8
        };
        lemma_be_round_trip(v as nat, w);
        assert(b.subrange(1, 1 + w as int) =~= be_bytes(v as nat, w));
    }
}

/// Bytes read as a number and written back with as many bytes are unchanged.
pub proof fn lemma_be_canonical(s: Seq<u8>)
    ensures
        be_bytes(be_value(s), s.len()) == s,
    decreases s.len(),
{
    if s.len() == 0 {
        assert(be_bytes(0, 0) =~= s);
    } else {
        let a = be_value(s.drop_last());
        let x = s.last() as nat;
        lemma_be_canonical(s.drop_last());
        let v = be_value(s);
        assert(v / 256 == a && v % 256 == x) by (nonlinear_arith)
            requires
                v == a * 256 + x,
                x < 256,
        ;
        lemma_be_bytes_step(v, s.len());
        assert(s =~= s.drop_last().push(x as u8));
    }
}

/// A BigSize that is read is written back as the same bytes.
pub proof fn lemma_bigsize_canonical(b: Seq<u8>)
    ensures
        bigsize_decoding(b) matches Ok((v, n)) ==> n <= b.len() && bigsize_bytes(v) == b.take(
            n as int,
        ),
{
    lemma_pow256_values();
    if b.len() > 0 && (b[0] == 0xFF || b[0] == 0xFE || b[0] == 0xFD) {
        let w: nat = if b[0] == 0xFF {
            8
        } else if b[0] == 0xFE {
            4
        } else {
            2
        };
        if b.len() >= 1 + w {
            let s = b.subrange(1, 1 + w as int);
            lemma_be_value_bound(s);
            lemma_be_canonical(s);
            assert(b.take(1 + w as int) =~= seq![b[0]] + s);
        }
    } else if b.len() > 0 {
        assert(b.take(1) =~= seq![b[0]]);
    }
}

/// Appends the BigSize form of `v`.
pub fn write_bigsize(out: &mut Vec<u8>, v: u64)
    ensures
        final(out)@ == old(out)@ + bigsize_bytes(v),
{
    proof {
        lemma_pow256_values();
    }
    let ghost start = out@;
    if v <= 0xFC {
        out.push(v as u8);
    } else if v <= 0xFFFF {
        out.push(0xFDu8);
        write_be(out, v, 2);
    } else if v <= 0xFFFF_FFFF {
        out.push(0xFEu8);
        write_be(out, v, 4);
    } else {
        out.push(0xFFu8);
        write_be(out, v, 8);
    }
    assert(out@ =~= start + bigsize_bytes(v));
}

/// Reads a BigSize at `pos`; returns it and the position after it.
pub fn read_bigsize(b: &[u8], pos: usize) -> (r: Result<(u64, usize), DecodeError>)
    requires
        pos <= b@.len(),
    ensures
        match r {
            Ok((v, end)) => pos <= end <= b@.len() && bigsize_decoding(
                b@.subrange(pos as int, b@.len() as int),
            ) == Ok::<(u64, nat), DecodeError>((v, (end - pos) as nat)),
            Err(e) => bigsize_decoding(b@.subrange(pos as int, b@.len() as int)) == Err::<
                (u64, nat),
                DecodeError,
            >(e),
        },
{
    let ghost s = b@.subrange(pos as int, b@.len() as int);
    if pos >= b.len() {
        return Err(DecodeError::ShortRead);
    }
    let tag = b[pos];
    let (width, min): (usize, u64) = if tag == 0xFF {
        (8, 0x1_0000_0000)
    } else if tag == 0xFE {
        (4, 0x1_0000)
    } else if tag == 0xFD {
        (2, 0xFD)
    } else {
        return Ok((tag as u64, pos + 1));
    };
    if b.len() - pos - 1 < width {
        return Err(DecodeError::ShortRead);
    }
    let x = read_be(b, pos + 1, width);
    assert(s.subrange(1, 1 + width) =~= b@.subrange(pos + 1, pos + 1 + width));
    if x < min {
        Err(DecodeError::NonCanonicalInteger)
    } else {
        Ok((x, pos + 1 + width))
    }
}

/// A type with one canonical byte encoding.
///
/// `encoding` says which bytes a value is written as, `decoding` what is read
/// from the start of a byte sequence: the value and the number of bytes used,
/// or the reason for refusal.
pub trait Codec: Sized + DeepView {
    /// Whether the value has an encoding.
    spec fn encodable(v: Self::V) -> bool;

    /// The bytes that the value is written as.
    spec fn encoding(v: Self::V) -> Seq<u8>;

    /// What is read from the start of `b`.
    spec fn decoding(b: Seq<u8>) -> Result<(Self::V, nat), DecodeError>;

    /// An encoded value is read back whole, whatever follows it.
    proof fn lemma_round_trip(v: Self::V, rest: Seq<u8>)
        requires
            Self::encodable(v),
        ensures
            Self::decoding(Self::encoding(v) + rest) == Ok::<(Self::V, nat), DecodeError>(
                (v, Self::encoding(v).len()),
            ),
    ;

    /// What is read is the encoding of what was read: a value has one
    /// encoding, and no other bytes decode to it.
    proof fn lemma_canonical(b: Seq<u8>)
        ensures
            Self::decoding(b) matches Ok((v, n)) ==> {
                &&& Self::encodable(v)
                &&& n <= b.len()
                &&& Self::encoding(v) == b.take(n as int)
            },
    ;

    /// Appends the encoding of `self`.
    fn consensus_encode(&self, out: &mut Vec<u8>)
        requires
            Self::encodable(self.deep_view()),
        ensures
            final(out)@ == old(out)@ + Self::encoding(self.deep_view()),
    ;

    /// Reads a value at `pos`; returns it and the position after it.
    fn consensus_decode(b: &[u8], pos: usize) -> (r: Result<(Self, usize), DecodeError>)
        requires
            pos <= b@.len(),
        ensures
            match r {
                Ok((v, end)) => pos <= end <= b@.len() && Self::decoding(
                    b@.subrange(pos as int, b@.len() as int),
                ) == Ok::<(Self::V, nat), DecodeError>((v.deep_view(), (end - pos) as nat)),
                Err(e) => Self::decoding(b@.subrange(pos as int, b@.len() as int)) == Err::<
                    (Self::V, nat),
                    DecodeError,
                >(e),
            },
    ;
}

/// Bytes are written as they are.
impl Codec for u8 {
    open spec fn encodable(v: u8) -> bool {
        true
    }

    open spec fn encoding(v: u8) -> Seq<u8> {
        seq![v]
    }

    open spec fn decoding(b: Seq<u8>) -> Result<(u8, nat), DecodeError> {
        if b.len() == 0 {
            Err(DecodeError::ShortRead)
        } else {
            Ok((b[0], 1))
        }
    }

    proof fn lemma_round_trip(v: u8, rest: Seq<u8>) {
    }

    proof fn lemma_canonical(b: Seq<u8>) {
        if b.len() > 0 {
            assert(b.take(1) =~= seq![b[0]]);
        }
    }

    fn consensus_encode(&self, out: &mut Vec<u8>) {
        out.push(*self);
    }

    fn consensus_decode(b: &[u8], pos: usize) -> (r: Result<(u8, usize), DecodeError>) {
        if pos >= b.len() {
            Err(DecodeError::ShortRead)
        } else {
            Ok((b[pos], pos + 1))
        }
    }
}

/// BigSize form.
impl Codec for u64 {
    open spec fn encodable(v: u64) -> bool {
        true
    }

    open spec fn encoding(v: u64) -> Seq<u8> {
        bigsize_bytes(v)
    }

    open spec fn decoding(b: Seq<u8>) -> Result<(u64, nat), DecodeError> {
        bigsize_decoding(b)
    }

    proof fn lemma_round_trip(v: u64, rest: Seq<u8>) {
        lemma_bigsize_round_trip(v, rest);
    }

    proof fn lemma_canonical(b: Seq<u8>) {
        lemma_bigsize_canonical(b);
    }

    fn consensus_encode(&self, out: &mut Vec<u8>) {
        write_bigsize(out, *self);
    }

    fn consensus_decode(b: &[u8], pos: usize) -> (r: Result<(u64, usize), DecodeError>) {
        read_bigsize(b, pos)
    }
}

/// BigSize form; a wider value is refused.
impl Codec for u32 {
    open spec fn encodable(v: u32) -> bool {
        true
    }

    open spec fn encoding(v: u32) -> Seq<u8> {
        bigsize_bytes(v as u64)
    }

    open spec fn decoding(b: Seq<u8>) -> Result<(u32, nat), DecodeError> {
        match bigsize_decoding(b) {
            Ok((x, n)) => if x <= u32::MAX {
                Ok((x as u32, n))
            } else {
                Err(DecodeError::IntegerOverflow)
            },
            Err(e) => Err(e),
        }
    }

    proof fn lemma_round_trip(v: u32, rest: Seq<u8>) {
        lemma_bigsize_round_trip(v as u64, rest);
    }

    proof fn lemma_canonical(b: Seq<u8>) {
        lemma_bigsize_canonical(b);
    }

    fn consensus_encode(&self, out: &mut Vec<u8>) {
        write_bigsize(out, *self as u64);
    }

    fn consensus_decode(b: &[u8], pos: usize) -> (r: Result<(u32, usize), DecodeError>) {
        match read_bigsize(b, pos) {
            Ok((x, end)) => if x <= u32::MAX as u64 {
                Ok((x as u32, end))
            } else {
                Err(DecodeError::IntegerOverflow)
            },
            Err(e) => Err(e),
        }
    }
}

/// BigSize form; a wider value is refused.
impl Codec for u16 {
    open spec fn encodable(v: u16) -> bool {
        true
    }

    open spec fn encoding(v: u16) -> Seq<u8> {
        bigsize_bytes(v as u64)
    }

    open spec fn decoding(b: Seq<u8>) -> Result<(u16, nat), DecodeError> {
        match bigsize_decoding(b) {
            Ok((x, n)) => if x <= u16::MAX {
                Ok((x as u16, n))
            } else {
                Err(DecodeError::IntegerOverflow)
            },
            Err(e) => Err(e),
        }
    }

    proof fn lemma_round_trip(v: u16, rest: Seq<u8>) {
        lemma_bigsize_round_trip(v as u64, rest);
    }

    proof fn lemma_canonical(b: Seq<u8>) {
        lemma_bigsize_canonical(b);
    }

    fn consensus_encode(&self, out: &mut Vec<u8>) {
        write_bigsize(out, *self as u64);
    }

    fn consensus_decode(b: &[u8], pos: usize) -> (r: Result<(u16, usize), DecodeError>) {
        match read_bigsize(b, pos) {
            Ok((x, end)) => if x <= u16::MAX as u64 {
                Ok((x as u16, end))
            } else {
                Err(DecodeError::IntegerOverflow)
            },
            Err(e) => Err(e),
        }
    }
}

/// One byte, `0` or `1`.
impl Codec for bool {
    open spec fn encodable(v: bool) -> bool {
        true
    }

    open spec fn encoding(v: bool) -> Seq<u8> {
        if v {
            seq![1u8]
        } else {
            seq![0u8]
        }
    }

    open spec fn decoding(b: Seq<u8>) -> Result<(bool, nat), DecodeError> {
        if b.len() == 0 {
            Err(DecodeError::ShortRead)
        } else if b[0] == 0 {
            Ok((false, 1))
        } else if b[0] == 1 {
            Ok((true, 1))
        } else {
            Err(DecodeError::InvalidFlag)
        }
    }

    proof fn lemma_round_trip(v: bool, rest: Seq<u8>) {
    }

    proof fn lemma_canonical(b: Seq<u8>) {
        if b.len() > 0 {
            assert(b.take(1) =~= seq![b[0]]);
        }
    }

    fn consensus_encode(&self, out: &mut Vec<u8>) {
        if *self {
            out.push(1u8);
        } else {
            out.push(0u8);
        }
    }

    fn consensus_decode(b: &[u8], pos: usize) -> (r: Result<(bool, usize), DecodeError>) {
        if pos >= b.len() {
            Err(DecodeError::ShortRead)
        } else if b[pos] == 0 {
            Ok((false, pos + 1))
        } else if b[pos] == 1 {
            Ok((true, pos + 1))
        } else {
            Err(DecodeError::InvalidFlag)
        }
    }
}

} // verus!
