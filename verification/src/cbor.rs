//! The pieces of CBOR (RFC 8949) that the encoding of a message is made of:
//! integers in their shortest form and single-precision floats, how they are
//! written and how they are read.

use vstd::arithmetic::div_mod::{
    lemma_div_denominator, lemma_fundamental_div_mod, lemma_fundamental_div_mod_converse,
};
use vstd::prelude::*;

verus! {

/// `pat` stands in `s` from position `at` on.
pub open spec fn starts_at(s: Seq<u8>, at: int, pat: Seq<u8>) -> bool {
    &&& 0 <= at
    &&& at + pat.len() <= s.len()
    &&& s.subrange(at, at + pat.len()) == pat
}

/// The head of a CBOR item of major type `major` with argument `n`, in its
/// shortest form. Defined for `major < 8` and `n < 65536`.
pub open spec fn item_head(major: int, n: int) -> Seq<u8> {
    if n < 24 {
        seq![(major * 32 + n) as u8]
    } else if n < 256 {
        seq![(major * 32 + 24) as u8, n as u8]
    } else {
        seq![(major * 32 + 25) as u8, (n / 256) as u8, (n % 256) as u8]
    }
}

/// A 16-bit integer as a CBOR integer: major type 0 holds `v` where it is not
/// negative, major type 1 holds `-1 - v` where it is.
pub open spec fn int_item(v: i16) -> Seq<u8> {
    if v >= 0 {
        item_head(0, v as int)
    } else {
        item_head(1, -1 - v)
    }
}

/// A single-precision float, given by its bits, as a CBOR float: the marker
/// and the four bytes, most significant first.
pub open spec fn float_item(bits: u32) -> Seq<u8> {
    seq![
        0xfau8,
        (bits / 0x100_0000) as u8,
        (bits / 0x1_0000 % 0x100) as u8,
        (bits / 0x100 % 0x100) as u8,
        (bits % 0x100) as u8,
    ]
}

/// Copies `src` into `dst` from position `at` on, and returns the position
/// behind the copy.
pub(crate) fn put(dst: &mut [u8], at: usize, src: &[u8]) -> (next: usize)
    requires
        at + src@.len() <= old(dst)@.len(),
    ensures
        next == at + src@.len(),
        final(dst)@ == old(dst)@.take(at as int) + src@ + old(dst)@.skip(next as int),
{
    let total = dst.len();
    let mut i: usize = 0;
    while i < src.len()
        invariant
            i <= src@.len(),
            at + src@.len() <= dst@.len(),
            dst@.len() == old(dst)@.len() == total,
            forall|j: int| 0 <= j < at ==> dst@[j] == old(dst)@[j],
            forall|j: int| 0 <= j < i ==> dst@[at + j] == src@[j],
            forall|j: int| at + i <= j < dst@.len() ==> dst@[j] == old(dst)@[j],
        decreases src@.len() - i,
    {
        dst[at + i] = src[i];
        i += 1;
    }
    assert(dst@ =~= old(dst)@.take(at as int) + src@ + old(dst)@.skip(at + src@.len()));
    at + src.len()
}

/// Whether `buf` holds `pat` from position `at` on.
pub(crate) fn holds(buf: &[u8], at: usize, pat: &[u8]) -> (r: bool)
    ensures
        r == starts_at(buf@, at as int, pat@),
{
    if at > buf.len() || pat.len() > buf.len() - at {
        return false;
    }
    let total = buf.len();
    let mut i: usize = 0;
    while i < pat.len()
        invariant
            i <= pat@.len(),
            at + pat@.len() <= buf@.len() == total,
            forall|j: int| 0 <= j < i ==> buf@[at + j] == pat@[j],
        decreases pat@.len() - i,
    {
        if buf[at + i] != pat[i] {
            assert(buf@.subrange(at as int, at + pat@.len())[i as int] != pat@[i as int]);
            return false;
        }
        i += 1;
    }
    assert(buf@.subrange(at as int, at + pat@.len()) =~= pat@);
    true
}

/// The bytes of [`int_item`] for `v`: the first `len` bytes of the array.
pub(crate) fn int_bytes(v: i16) -> (r: ([u8; 3], usize))
    ensures
        r.1 <= 3,
        r.0@.take(r.1 as int) == int_item(v),
{
    let (major, n): (u8, u16) = if v >= 0 {
        (0, v as u16)
    } else {
        (0x20, (-1 - v) as u16)
    };
    let r = if n < 24 {
        ([major + n as u8, 0, 0], 1usize)
    } else if n < 256 {
        ([major + 24, n as u8, 0], 2usize)
    } else {
        ([major + 25, (n / 256) as u8, (n % 256) as u8], 3usize)
    };
    assert(r.0@.take(r.1 as int) =~= int_item(v));
    r
}

/// The bytes of [`float_item`] for `bits`.
pub(crate) fn float_bytes(bits: u32) -> (r: [u8; 5])
    ensures
        r@ == float_item(bits),
{
    let r = [
        0xfa,
        (bits / 0x100_0000) as u8,
        (bits / 0x1_0000 % 0x100) as u8,
        (bits / 0x100 % 0x100) as u8,
        (bits % 0x100) as u8,
    ];
    assert(r@ =~= float_item(bits));
    r
}

/// Reads the integer that stands in `buf` from `at` on, and returns it with
/// the position behind it.
pub(crate) fn read_int(buf: &[u8], at: usize) -> (r: Option<(i16, usize)>)
    ensures
        r matches Some((v, next)) ==> next == at + int_item(v).len() && starts_at(
            buf@,
            at as int,
            int_item(v),
        ),
        r is None ==> forall|v: i16| !starts_at(buf@, at as int, #[trigger] int_item(v)),
{
    if at >= buf.len() {
        return None;
    }
    let first = buf[at];
    let negative = first >= 0x20;
    if first >= 0x40 {
        assert forall|v: i16| !starts_at(buf@, at as int, #[trigger] int_item(v)) by {
            lemma_int_item_first(v);
            lemma_starts_at_first(buf@, at as int, int_item(v));
        }
        return None;
    }
    let low: u8 = if negative {
        first - 0x20
    } else {
        first
    };
    let found: Option<(u16, usize)> = if low < 24 {
        Some((low as u16, at + 1))
    } else if low == 24 {
        if buf.len() - at < 2 || buf[at + 1] < 24 {
            None
        } else {
            Some((buf[at + 1] as u16, at + 2))
        }
    } else if low == 25 {
        if buf.len() - at < 3 || buf[at + 1] == 0 || buf[at + 1] >= 0x80 {
            None
        } else {
            Some(((buf[at + 1] as u16) * 256 + buf[at + 2] as u16, at + 3))
        }
    } else {
        None
    };
    match found {
        Some((n, next)) => {
            let v: i16 = if negative {
                -1 - (n as i16)
            } else {
                n as i16
            };
            assert(buf@.subrange(at as int, next as int) =~= int_item(v));
            Some((v, next))
        },
        None => {
            assert forall|v: i16| !starts_at(buf@, at as int, #[trigger] int_item(v)) by {
                lemma_int_item_first(v);
                if starts_at(buf@, at as int, int_item(v)) {
                    let item = int_item(v);
                    let piece = buf@.subrange(at as int, at + item.len());
                    assert(piece[0] == item[0]);
                    if item.len() >= 2 {
                        assert(piece[1] == item[1]);
                    }
                    if item.len() >= 3 {
                        assert(piece[2] == item[2]);
                    }
                }
            }
            None
        },
    }
}

/// Reads the float that stands in `buf` from `at` on, as its bits.
pub(crate) fn read_float(buf: &[u8], at: usize) -> (r: Option<u32>)
    requires
        at + 5 <= buf@.len(),
    ensures
        r matches Some(bits) ==> starts_at(buf@, at as int, float_item(bits)),
        r is None ==> buf@[at as int] != 0xfa,
{
    if buf[at] != 0xfa {
        return None;
    }
    let (b3, b2, b1, b0) = (buf[at + 1], buf[at + 2], buf[at + 3], buf[at + 4]);
    let bits: u32 = (b3 as u32) * 0x100_0000 + (b2 as u32) * 0x1_0000 + (b1 as u32) * 0x100 + (
    b0 as u32);
    proof {
        lemma_float_bytes(b3, b2, b1, b0);
        assert(buf@.subrange(at as int, at + 5) =~= float_item(bits));
    }
    Some(bits)
}

/// Four bytes, put together most significant first, come apart again as the
/// same four bytes.
pub(crate) proof fn lemma_float_bytes(b3: u8, b2: u8, b1: u8, b0: u8)
    ensures
        ({
            let bits = b3 * 0x100_0000 + b2 * 0x1_0000 + b1 * 0x100 + b0;
            &&& bits <= u32::MAX
            &&& bits / 0x100_0000 == b3
            &&& bits / 0x1_0000 % 0x100 == b2
            &&& bits / 0x100 % 0x100 == b1
            &&& bits % 0x100 == b0
        }),
{
    let bits = b3 * 0x100_0000 + b2 * 0x1_0000 + b1 * 0x100 + b0;
    let upper = b3 * 0x100 + b2;
    let middle = b3 * 0x1_0000 + b2 * 0x100 + b1;
    lemma_fundamental_div_mod_converse(
        bits,
        0x100_0000,
        b3 as int,
        b2 * 0x1_0000 + b1 * 0x100 + b0,
    );
    lemma_fundamental_div_mod_converse(bits, 0x1_0000, upper, b1 * 0x100 + b0);
    lemma_fundamental_div_mod_converse(upper, 0x100, b3 as int, b2 as int);
    lemma_fundamental_div_mod_converse(bits, 0x100, middle, b0 as int);
    lemma_fundamental_div_mod_converse(middle, 0x100, upper, b1 as int);
}

/// The first byte of an encoded integer tells its sign and its length, and
/// the bytes behind it tell its value.
pub(crate) proof fn lemma_int_item_first(v: i16)
    ensures
        1 <= int_item(v).len() <= 3,
        v >= 0 ==> int_item(v)[0] < 0x20,
        v < 0 ==> 0x20 <= int_item(v)[0] < 0x40,
        int_item(v).len() == 1 <==> int_item(v)[0] % 0x20 < 24,
        int_item(v).len() == 2 <==> int_item(v)[0] % 0x20 == 24,
        int_item(v).len() == 3 <==> int_item(v)[0] % 0x20 == 25,
        int_item(v)[0] % 0x20 <= 25,
        int_item(v).len() == 1 ==> (if v >= 0 {
            v as int
        } else {
            -1 - v
        }) == int_item(v)[0] % 0x20,
        int_item(v).len() == 2 ==> (if v >= 0 {
            v as int
        } else {
            -1 - v
        }) == int_item(v)[1] && int_item(v)[1] >= 24,
        int_item(v).len() == 3 ==> (if v >= 0 {
            v as int
        } else {
            -1 - v
        }) == int_item(v)[1] * 256 + int_item(v)[2] && 0 < int_item(v)[1] < 0x80,
{
}

/// Where a pattern that is not empty stands in `s` at `at`, its first byte is
/// the byte of `s` at `at`.
pub(crate) proof fn lemma_starts_at_first(s: Seq<u8>, at: int, pat: Seq<u8>)
    requires
        pat.len() > 0,
    ensures
        starts_at(s, at, pat) ==> at < s.len() && s[at] == pat[0],
{
    if starts_at(s, at, pat) {
        assert(s.subrange(at, at + pat.len())[0] == pat[0]);
    }
}

/// An integer is told by the bytes it is encoded in, wherever they stand.
pub(crate) proof fn lemma_int_item_unique(s: Seq<u8>, at: int, v: i16, w: i16)
    requires
        starts_at(s, at, int_item(v)),
        starts_at(s, at, int_item(w)),
    ensures
        v == w,
{
    lemma_int_item_first(v);
    lemma_int_item_first(w);
    let a = int_item(v);
    let b = int_item(w);
    assert(s.subrange(at, at + a.len())[0] == a[0]);
    assert(s.subrange(at, at + b.len())[0] == b[0]);
    assert(a.len() == b.len());
    if a.len() >= 2 {
        assert(s.subrange(at, at + a.len())[1] == a[1]);
        assert(s.subrange(at, at + b.len())[1] == b[1]);
    }
    if a.len() >= 3 {
        assert(s.subrange(at, at + a.len())[2] == a[2]);
        assert(s.subrange(at, at + b.len())[2] == b[2]);
    }
}

/// The bits of a float are its four bytes put together.
pub(crate) proof fn lemma_float_bits(x: u32)
    ensures
        x == (x / 0x100_0000) * 0x100_0000 + (x / 0x1_0000 % 0x100) * 0x1_0000 + (x / 0x100
            % 0x100) * 0x100 + x % 0x100,
        x / 0x100_0000 < 0x100,
{
    let x = x as int;
    lemma_fundamental_div_mod(x, 0x100);
    lemma_fundamental_div_mod(x / 0x100, 0x100);
    lemma_fundamental_div_mod(x / 0x1_0000, 0x100);
    lemma_div_denominator(x, 0x100, 0x100);
    lemma_div_denominator(x, 0x1_0000, 0x100);
}

/// A float is told by the bytes it is encoded in.
pub(crate) proof fn lemma_float_item_unique(x: u32, y: u32)
    requires
        float_item(x) == float_item(y),
    ensures
        x == y,
{
    let a = float_item(x);
    let b = float_item(y);
    assert(a[1] == b[1] && a[2] == b[2] && a[3] == b[3] && a[4] == b[4]);
    lemma_float_bits(x);
    lemma_float_bits(y);
}

/// Three pieces behind a head stand where the lengths before them say.
pub(crate) proof fn lemma_layout(head: Seq<u8>, a: Seq<u8>, b: Seq<u8>, c: Seq<u8>)
    ensures
        (head + a + b + c).len() == head.len() + a.len() + b.len() + c.len(),
        starts_at(head + a + b + c, 0, head),
        starts_at(head + a + b + c, head.len() as int, a),
        starts_at(head + a + b + c, (head.len() + a.len()) as int, b),
        starts_at(head + a + b + c, (head.len() + a.len() + b.len()) as int, c),
{
    let s = head + a + b + c;
    let at_a = head.len() as int;
    let at_b = at_a + a.len();
    let at_c = at_b + b.len();
    assert(s.subrange(0, at_a) =~= head);
    assert(s.subrange(at_a, at_b) =~= a);
    assert(s.subrange(at_b, at_c) =~= b);
    assert(s.subrange(at_c, s.len() as int) =~= c);
}

/// A sequence that holds a head and three pieces one behind the other, and
/// nothing more, is their concatenation.
pub(crate) proof fn lemma_build(s: Seq<u8>, head: Seq<u8>, a: Seq<u8>, b: Seq<u8>, c: Seq<u8>)
    requires
        s.len() == head.len() + a.len() + b.len() + c.len(),
        starts_at(s, 0, head),
        starts_at(s, head.len() as int, a),
        starts_at(s, (head.len() + a.len()) as int, b),
        starts_at(s, (head.len() + a.len() + b.len()) as int, c),
    ensures
        s == head + a + b + c,
{
    let t = head + a + b + c;
    let at_a = head.len() as int;
    let at_b = at_a + a.len();
    let at_c = at_b + b.len();
    assert forall|i: int| 0 <= i < s.len() implies s[i] == t[i] by {
        if i < at_a {
            assert(s.subrange(0, at_a)[i] == s[i]);
        } else if i < at_b {
            assert(s.subrange(at_a, at_b)[i - at_a] == s[i]);
        } else if i < at_c {
            assert(s.subrange(at_b, at_c)[i - at_b] == s[i]);
        } else {
            assert(s.subrange(at_c, at_c + c.len())[i - at_c] == s[i]);
        }
    }
    assert(s =~= t);
}

/// Whether `buf` is exactly `pat`.
pub(crate) fn equals(buf: &[u8], pat: &[u8]) -> (r: bool)
    ensures
        r == (buf@ == pat@),
{
    let r = buf.len() == pat.len() && holds(buf, 0, pat);
    proof {
        if buf@.len() == pat@.len() {
            assert(buf@.subrange(0, pat@.len() as int) =~= buf@);
        }
    }
    r
}

} // verus!
