use vstd::prelude::*;
use crate::image::{Image, Raster, lemma_index_in_grid};

verus! {

pub open spec fn is_digit(c: u8) -> bool {
    48 <= c <= 57
}

/// The decimal digits of `n`, most significant first, without leading zeros.
pub open spec fn decimal(n: nat) -> Seq<u8>
    decreases n,
{
    if n < 10 {
        seq![(48 + n) as u8]
    } else {
        decimal(n / 10).push((48 + n % 10) as u8)
    }
}

/// The number that a run of decimal digits spells.
pub open spec fn digits_value(s: Seq<u8>) -> nat
    decreases s.len(),
{
    if s.len() == 0 {
        0
    } else {
        digits_value(s.drop_last()) * 10 + (s.last() - 48) as nat
    }
}

/// One pixel as a text line: `"<r> <g> <b>\n"`.
pub open spec fn pixel_line(c: [u8; 3]) -> Seq<u8> {
    decimal(c[0] as nat) + seq![32u8] + decimal(c[1] as nat) + seq![32u8] + decimal(c[2] as nat)
        + seq![10u8]
}

/// The lines of all pixels, in order.
pub open spec fn pixel_lines(px: Seq<[u8; 3]>) -> Seq<u8>
    decreases px.len(),
{
    if px.len() == 0 {
        Seq::empty()
    } else {
        pixel_line(px[0]) + pixel_lines(px.drop_first())
    }
}

/// `"P3\n<width> <height>\n255\n"`.
pub open spec fn ppm_header(width: nat, height: nat) -> Seq<u8> {
    seq![80u8, 51u8, 10u8] + decimal(width) + seq![32u8] + decimal(height) + seq![10u8] + seq![
        50u8,
        53u8,
        53u8,
        10u8,
    ]
}

/// The plain-text PPM form of an image.
pub open spec fn ppm_text(m: Raster) -> Seq<u8> {
    ppm_header(m.width, m.height) + pixel_lines(m.pixels)
}

proof fn lemma_decimal_digits(n: nat)
    ensures
        decimal(n).len() >= 1,
        forall|i: int| 0 <= i < decimal(n).len() ==> is_digit(#[trigger] decimal(n)[i]),
        digits_value(decimal(n)) == n,
    decreases n,
{
    let d = decimal(n);
    if n >= 10 {
        lemma_decimal_digits(n / 10);
        assert(d.drop_last() =~= decimal(n / 10));
        assert(d.last() == (48 + n % 10) as u8);
    } else {
        assert(d.drop_last() =~= Seq::<u8>::empty());
        assert(digits_value(d.drop_last()) == 0);
    }
}

proof fn lemma_pixel_lines_append(px: Seq<[u8; 3]>, c: [u8; 3])
    ensures
        pixel_lines(px.push(c)) == pixel_lines(px) + pixel_line(c),
    decreases px.len(),
{
    if px.len() == 0 {
        assert(px.push(c).drop_first() =~= Seq::<[u8; 3]>::empty());
        assert(pixel_lines(Seq::<[u8; 3]>::empty()) == Seq::<u8>::empty());
        assert(pixel_lines(px.push(c)) =~= pixel_line(c));
    } else {
        lemma_pixel_lines_append(px.drop_first(), c);
        assert(px.push(c).drop_first() =~= px.drop_first().push(c));
        assert(pixel_lines(px.push(c)) =~= pixel_lines(px) + pixel_line(c));
    }
}

/// Where the run of digits that starts at `pos` ends.
pub open spec fn run_end(b: Seq<u8>, pos: int) -> int
    decreases b.len() - pos,
{
    if 0 <= pos < b.len() && is_digit(b[pos]) {
        run_end(b, pos + 1)
    } else {
        pos
    }
}

/// The image that a PPM text is the encoding of, if there is one.
pub open spec fn ppm_image(b: Seq<u8>) -> Option<Raster> {
    if exists|m: Raster| m.storable() && ppm_text(m) == b {
        Some(choose|m: Raster| m.storable() && ppm_text(m) == b)
    } else {
        None
    }
}

proof fn lemma_run_end_bounds(b: Seq<u8>, pos: int)
    requires
        0 <= pos <= b.len(),
    ensures
        pos <= run_end(b, pos) <= b.len(),
    decreases b.len() - pos,
{
    if pos < b.len() && is_digit(b[pos]) {
        lemma_run_end_bounds(b, pos + 1);
    }
}

/// A run of digits that stops at the end or at a non-digit ends there.
proof fn lemma_run_end_at(b: Seq<u8>, pos: int, e: int)
    requires
        0 <= pos <= e <= b.len(),
        forall|k: int| pos <= k < e ==> is_digit(#[trigger] b[k]),
        e == b.len() || !is_digit(b[e]),
    ensures
        run_end(b, pos) == e,
    decreases e - pos,
{
    if pos < e {
        lemma_run_end_at(b, pos + 1, e);
    }
}

/// A longer run of digits spells a number at least as large.
proof fn lemma_digits_value_prefix(s: Seq<u8>, k: int)
    requires
        0 <= k <= s.len(),
    ensures
        digits_value(s.take(k)) <= digits_value(s),
    decreases s.len(),
{
    if k == s.len() {
        assert(s.take(k) =~= s);
    } else {
        lemma_digits_value_prefix(s.drop_last(), k);
        assert(s.drop_last().take(k) =~= s.take(k));
    }
}

/// Two numbers written in decimal, each followed by a non-digit, are told
/// apart by their text.
proof fn lemma_decimal_split(n1: nat, n2: nat, t1: Seq<u8>, t2: Seq<u8>)
    requires
        decimal(n1) + t1 == decimal(n2) + t2,
        t1.len() > 0,
        !is_digit(t1[0]),
        t2.len() > 0,
        !is_digit(t2[0]),
    ensures
        n1 == n2,
        t1 == t2,
{
    let a = decimal(n1);
    let c = decimal(n2);
    let s = a + t1;
    lemma_decimal_digits(n1);
    lemma_decimal_digits(n2);
    if a.len() < c.len() {
        assert(s[a.len() as int] == t1[0]);
        assert(s[a.len() as int] == c[a.len() as int]);
    }
    if c.len() < a.len() {
        assert(s[c.len() as int] == t2[0]);
        assert(s[c.len() as int] == a[c.len() as int]);
    }
    assert(a =~= s.take(a.len() as int));
    assert(c =~= s.take(a.len() as int));
    assert(t1 =~= s.skip(a.len() as int));
    assert(t2 =~= s.skip(a.len() as int));
}

/// A number written in decimal and followed by a non-digit `sep` is told
/// apart from any other by its text.
proof fn lemma_field_split(n1: nat, n2: nat, sep: u8, t1: Seq<u8>, t2: Seq<u8>)
    requires
        decimal(n1) + (seq![sep] + t1) == decimal(n2) + (seq![sep] + t2),
        !is_digit(sep),
    ensures
        n1 == n2,
        t1 == t2,
{
    lemma_decimal_split(n1, n2, seq![sep] + t1, seq![sep] + t2);
    assert(t1 =~= (seq![sep] + t1).skip(1));
    assert(t2 =~= (seq![sep] + t2).skip(1));
}

proof fn lemma_pixel_line_fields(c: [u8; 3], t: Seq<u8>)
    ensures
        pixel_line(c) + t =~= decimal(c[0] as nat) + (seq![32u8] + (decimal(c[1] as nat) + (seq![32u8]
            + (decimal(c[2] as nat) + (seq![10u8] + t))))),
{
}

proof fn lemma_pixel_line_split(c1: [u8; 3], c2: [u8; 3], t1: Seq<u8>, t2: Seq<u8>)
    requires
        pixel_line(c1) + t1 == pixel_line(c2) + t2,
    ensures
        c1 == c2,
        t1 == t2,
{
    let (r0, g0, b0) = (c1[0] as nat, c1[1] as nat, c1[2] as nat);
    let (r1, g1, b1) = (c2[0] as nat, c2[1] as nat, c2[2] as nat);
    lemma_pixel_line_fields(c1, t1);
    lemma_pixel_line_fields(c2, t2);
    let q0 = decimal(b0) + (seq![10u8] + t1);
    let q1 = decimal(b1) + (seq![10u8] + t2);
    let p0 = decimal(g0) + (seq![32u8] + q0);
    let p1 = decimal(g1) + (seq![32u8] + q1);
    lemma_field_split(r0, r1, 32u8, p0, p1);
    lemma_field_split(g0, g1, 32u8, q0, q1);
    lemma_field_split(b0, b1, 10u8, t1, t2);
    assert(c1 =~= c2);
}

proof fn lemma_pixel_lines_injective(p1: Seq<[u8; 3]>, p2: Seq<[u8; 3]>)
    requires
        pixel_lines(p1) == pixel_lines(p2),
        p1.len() == p2.len(),
    ensures
        p1 == p2,
    decreases p1.len(),
{
    if p1.len() == 0 {
        assert(p1 =~= p2);
    } else {
        lemma_pixel_line_split(
            p1[0],
            p2[0],
            pixel_lines(p1.drop_first()),
            pixel_lines(p2.drop_first()),
        );
        lemma_pixel_lines_injective(p1.drop_first(), p2.drop_first());
        assert(p1 =~= seq![p1[0]] + p1.drop_first());
        assert(p2 =~= seq![p2[0]] + p2.drop_first());
    }
}

/// The header and pixel lines of a PPM text, split where a reader meets them.
proof fn lemma_ppm_parts(m: Raster)
    ensures
        ppm_text(m) =~= seq![80u8, 51u8, 10u8] + (decimal(m.width) + (seq![32u8] + (decimal(m.height) + (
        seq![10u8, 50u8, 53u8, 53u8, 10u8] + pixel_lines(m.pixels))))),
{
}

/// Two images with the same PPM text are the same image.
pub proof fn lemma_ppm_injective(m1: Raster, m2: Raster)
    requires
        m1.storable(),
        m2.storable(),
        ppm_text(m1) == ppm_text(m2),
    ensures
        m1 == m2,
{
    lemma_ppm_parts(m1);
    lemma_ppm_parts(m2);
    let tail = seq![10u8, 50u8, 53u8, 53u8, 10u8];
    let a1 = seq![32u8] + (decimal(m1.height) + (tail + pixel_lines(m1.pixels)));
    let a2 = seq![32u8] + (decimal(m2.height) + (tail + pixel_lines(m2.pixels)));
    assert(ppm_text(m1).skip(3) =~= decimal(m1.width) + a1);
    assert(ppm_text(m2).skip(3) =~= decimal(m2.width) + a2);
    lemma_decimal_split(m1.width, m2.width, a1, a2);
    let b1 = tail + pixel_lines(m1.pixels);
    let b2 = tail + pixel_lines(m2.pixels);
    assert(a1.skip(1) =~= decimal(m1.height) + b1);
    assert(a2.skip(1) =~= decimal(m2.height) + b2);
    lemma_decimal_split(m1.height, m2.height, b1, b2);
    assert(b1.skip(5) =~= pixel_lines(m1.pixels));
    assert(b2.skip(5) =~= pixel_lines(m2.pixels));
    lemma_pixel_lines_injective(m1.pixels, m2.pixels);
}

/// An image written as PPM text reads back as the same width, height and
/// pixels.
pub proof fn lemma_ppm_round_trip(m: Raster)
    requires
        m.storable(),
    ensures
        ppm_image(ppm_text(m)) == Some(m),
{
    let b = ppm_text(m);
    assert(m.storable() && ppm_text(m) == b);
    let m2 = choose|m2: Raster| m2.storable() && ppm_text(m2) == b;
    lemma_ppm_injective(m, m2);
}

/// Appends the decimal digits of `n`.
fn push_decimal(out: &mut Vec<u8>, n: usize)
    ensures
        final(out)@ == old(out)@ + decimal(n as nat),
    decreases n,
{
    if n >= 10 {
        push_decimal(out, n / 10);
    }
    out.push(48 + (n % 10) as u8);
    assert(final(out)@ =~= old(out)@ + decimal(n as nat));
}

fn push_pixel_line(out: &mut Vec<u8>, c: [u8; 3])
    ensures
        final(out)@ == old(out)@ + pixel_line(c),
{
    push_decimal(out, c[0] as usize);
    out.push(32u8);
    push_decimal(out, c[1] as usize);
    out.push(32u8);
    push_decimal(out, c[2] as usize);
    out.push(10u8);
    assert(final(out)@ =~= old(out)@ + pixel_line(c));
}

/// Reads the run of decimal digits at `pos` and returns its value and where
/// it ends; `None` if there is no digit at `pos` or the value exceeds `max`.
fn read_number(b: &[u8], pos: usize, max: usize) -> (r: Option<(usize, usize)>)
    requires
        pos <= b@.len(),
    ensures
        r is Some <==> (run_end(b@, pos as int) > pos && digits_value(
            b@.subrange(pos as int, run_end(b@, pos as int)),
        ) <= max),
        r matches Some((v, e)) ==> e == run_end(b@, pos as int) && v == digits_value(
            b@.subrange(pos as int, e as int),
        ),
{
    let mut i: usize = pos;
    let mut v: usize = 0;
    proof {
        assert(b@.subrange(pos as int, pos as int) =~= Seq::<u8>::empty());
    }
    while i < b.len() && 48 <= b[i] && b[i] <= 57
        invariant
            pos <= i <= b@.len(),
            run_end(b@, pos as int) == run_end(b@, i as int),
            v == digits_value(b@.subrange(pos as int, i as int)),
            v <= max,
        decreases b@.len() - i,
    {
        let d: usize = (b[i] - 48) as usize;
        proof {
            assert(b@.subrange(pos as int, i + 1).drop_last() =~= b@.subrange(pos as int, i as int));
        }
        if d > max || v > (max - d) / 10 {
            proof {
                assert(v * 10 + d > max) by (nonlinear_arith)
                    requires
                        d > max || v > (max - d) / 10,
                ;
                let e = run_end(b@, pos as int);
                lemma_run_end_bounds(b@, i + 1);
                let run = b@.subrange(pos as int, e);
                lemma_digits_value_prefix(run, i + 1 - pos);
                assert(run.take(i + 1 - pos) =~= b@.subrange(pos as int, i + 1));
            }
            return None;
        }
        assert(v * 10 + d <= max) by (nonlinear_arith)
            requires
                d <= max,
                v <= (max - d) / 10,
        ;
        v = v * 10 + d;
        i = i + 1;
    }
    if i == pos {
        None
    } else {
        Some((v, i))
    }
}

/// Reads a number of at most `max` written in decimal at `pos` and followed
/// by `sep`; returns it and the position after `sep`. Where the text there
/// is `n` in decimal, `sep`, then `t`, that is what it finds.
fn read_field(b: &[u8], pos: usize, max: usize, sep: u8, Ghost(n): Ghost<nat>, Ghost(t): Ghost<Seq<u8>>) -> (r: Option<(usize, usize)>)
    requires
        pos <= b@.len(),
        !is_digit(sep),
    ensures
        r matches Some((v, e)) ==> v <= max && pos < e <= b@.len(),
        b@.subrange(pos as int, b@.len() as int) == decimal(n) + (seq![sep] + t) && n <= max ==> (
        r matches Some((v, e)) && v == n && b@.subrange(e as int, b@.len() as int) == t),
{
    let res = read_number(b, pos, max);
    proof {
        lemma_run_end_bounds(b@, pos as int);
        if b@.subrange(pos as int, b@.len() as int) == decimal(n) + (seq![sep] + t) && n <= max {
            let s = b@.subrange(pos as int, b@.len() as int);
            let len = decimal(n).len() as int;
            lemma_decimal_digits(n);
            assert(s.len() == b@.len() - pos);
            assert(s.len() == len + 1 + t.len());
            assert forall|k: int| pos <= k < pos + len implies is_digit(#[trigger] b@[k]) by {
                assert(s[k - pos] == b@[k]);
                assert(s[k - pos] == decimal(n)[k - pos]);
            }
            assert(s[len] == b@[pos + len]);
            lemma_run_end_at(b@, pos as int, pos + len);
            assert(b@.subrange(pos as int, pos + len) =~= decimal(n));
            assert forall|k: int| 0 <= k < t.len() implies b@.subrange(
                pos + len + 1,
                b@.len() as int,
            )[k] == t[k] by {
                assert(s[len + 1 + k] == t[k]);
                assert(s[len + 1 + k] == b@[pos + len + 1 + k]);
            }
            assert(b@.subrange(pos + len + 1, b@.len() as int) =~= t);
        }
    }
    match res {
        None => None,
        Some((v, e)) => {
            if e < b.len() && b[e] == sep {
                Some((v, e + 1))
            } else {
                None
            }
        },
    }
}

/// Reads one `"<r> <g> <b>\n"` line at `pos`; returns the pixel and the
/// position after the line. Where the text there is the line of `c`, then
/// `t`, that is what it finds.
fn read_pixel(b: &[u8], pos: usize, Ghost(c): Ghost<[u8; 3]>, Ghost(t): Ghost<Seq<u8>>) -> (r: Option<([u8; 3], usize)>)
    requires
        pos <= b@.len(),
    ensures
        r matches Some((p, e)) ==> pos < e <= b@.len(),
        b@.subrange(pos as int, b@.len() as int) == pixel_line(c) + t ==> (r matches Some((p, e))
            && p == c && b@.subrange(e as int, b@.len() as int) == t),
{
    let ghost after_red = decimal(c[1] as nat) + (seq![32u8] + (decimal(c[2] as nat) + (seq![10u8]
        + t)));
    let ghost after_green = decimal(c[2] as nat) + (seq![10u8] + t);
    let ghost hyp = b@.subrange(pos as int, b@.len() as int) == pixel_line(c) + t;
    proof {
        lemma_pixel_line_fields(c, t);
    }
    let (red, p1) = match read_field(b, pos, 255, 32u8, Ghost(c[0] as nat), Ghost(after_red)) {
        Some(f) => f,
        None => {
            return None;
        },
    };
    let (green, p2) = match read_field(b, p1, 255, 32u8, Ghost(c[1] as nat), Ghost(after_green)) {
        Some(f) => f,
        None => {
            return None;
        },
    };
    let (blue, p3) = match read_field(b, p2, 255, 10u8, Ghost(c[2] as nat), Ghost(t)) {
        Some(f) => f,
        None => {
            return None;
        },
    };
    let pixel: [u8; 3] = [red as u8, green as u8, blue as u8];
    proof {
        if hyp {
            assert(pixel =~= c);
        }
    }
    Some((pixel, p3))
}

fn bytes_equal(a: &Vec<u8>, b: &[u8]) -> (r: bool)
    ensures
        r == (a@ == b@),
{
    if a.len() != b.len() {
        return false;
    }
    let mut i: usize = 0;
    while i < a.len()
        invariant
            a@.len() == b@.len(),
            i <= a@.len(),
            forall|k: int| 0 <= k < i ==> a@[k] == b@[k],
        decreases a@.len() - i,
    {
        if a[i] != b[i] {
            return false;
        }
        i = i + 1;
    }
    assert(a@ =~= b@);
    true
}

impl Image {
    /// The image as plain-text PPM: a `P3` line, a line with the width and
    /// the height, a `255` line, then one `"<r> <g> <b>"` line per pixel,
    /// row by row from the top-left.
    pub fn to_ppm(&self) -> (r: Vec<u8>)
        requires
            self.wf(),
        ensures
            r@ == ppm_text(self@),
    {
        let mut out: Vec<u8> = Vec::new();
        out.push(80u8);
        out.push(51u8);
        out.push(10u8);
        push_decimal(&mut out, self.width());
        out.push(32u8);
        push_decimal(&mut out, self.height());
        out.push(10u8);
        out.push(50u8);
        out.push(53u8);
        out.push(53u8);
        out.push(10u8);
        let ghost m = self@;
        assert(out@ =~= ppm_header(m.width, m.height));
        let mut y: usize = 0;
        while y < self.height()
            invariant
                self.wf(),
                m == self@,
                y <= m.height,
                out@ == ppm_header(m.width, m.height) + pixel_lines(m.pixels.take(y * m.width)),
            decreases m.height - y,
        {
            let mut x: usize = 0;
            while x < self.width()
                invariant
                    self.wf(),
                    m == self@,
                    y < m.height,
                    x <= m.width,
                    out@ == ppm_header(m.width, m.height) + pixel_lines(
                        m.pixels.take(y * m.width + x),
                    ),
                decreases m.width - x,
            {
                let c = self.get(x, y);
                proof {
                    lemma_index_in_grid(m, x as int, y as int);
                    lemma_pixel_lines_append(m.pixels.take(y * m.width + x), c);
                    assert(m.pixels.take(y * m.width + x).push(c) =~= m.pixels.take(
                        y * m.width + x + 1,
                    ));
                }
                push_pixel_line(&mut out, c);
                x = x + 1;
            }
            assert(y * m.width + m.width == (y + 1) * m.width) by (nonlinear_arith);
            y = y + 1;
        }
        proof {
            assert(m.pixels.take((m.height * m.width) as int) =~= m.pixels) by {
                assert(m.height * m.width == m.width * m.height) by (nonlinear_arith);
            }
        }
        out
    }
}

impl Image {
    /// Reads back a plain-text PPM image in the form that `to_ppm` writes;
    /// `None` for a text that is not the PPM form of any image.
    pub fn from_ppm(b: &[u8]) -> (r: Option<Image>)
        ensures
            r is Some <==> ppm_image(b@) is Some,
            r matches Some(img) ==> img.wf() && ppm_text(img@) == b@ && ppm_image(b@) == Some(img@),
    {
        let ghost enc = exists|m: Raster| m.storable() && ppm_text(m) == b@;
        let ghost m = choose|m: Raster| m.storable() && ppm_text(m) == b@;
        let ghost px = m.pixels;
        let ghost size_line = seq![10u8, 50u8, 53u8, 53u8, 10u8] + pixel_lines(px);
        proof {
            if enc {
                lemma_ppm_parts(m);
            }
        }
        if b.len() < 3 || b[0] != 80 || b[1] != 51 || b[2] != 10 {
            return None;
        }
        proof {
            if enc {
                assert(b@.subrange(3, b@.len() as int) =~= decimal(m.width) + (seq![32u8] + (decimal(
                    m.height,
                ) + size_line)));
            }
        }
        let (w, pos) = match read_field(
            b,
            3,
            usize::MAX,
            32u8,
            Ghost(m.width),
            Ghost(decimal(m.height) + size_line),
        ) {
            Some(f) => f,
            None => {
                return None;
            },
        };
        let ghost pixel_text = seq![50u8, 53u8, 53u8, 10u8] + pixel_lines(px);
        proof {
            if enc {
                assert(decimal(m.height) + size_line =~= decimal(m.height) + (seq![10u8]
                    + pixel_text));
            }
        }
        let (h, pos) = match read_field(b, pos, usize::MAX, 10u8, Ghost(m.height), Ghost(pixel_text)) {
            Some(f) => f,
            None => {
                return None;
            },
        };
        if b.len() - pos < 4 || b[pos] != 50 || b[pos + 1] != 53 || b[pos + 2] != 53 || b[pos + 3]
            != 10 {
            return None;
        }
        let mut pos: usize = pos + 4;
        proof {
            if enc {
                assert(b@.subrange(pos as int, b@.len() as int) =~= pixel_lines(px)) by {
                    assert(b@.subrange(pos as int, b@.len() as int) =~= pixel_text.skip(4));
                }
            }
        }
        if h != 0 && w > usize::MAX / h {
            proof {
                if enc {
                    assert(w <= usize::MAX / h) by (nonlinear_arith)
                        requires
                            w * h <= usize::MAX,
                            h != 0,
                    ;
                }
            }
            return None;
        }
        assert(w * h <= usize::MAX) by (nonlinear_arith)
            requires
                h == 0 || w <= usize::MAX / h,
        ;
        let count: usize = w * h;
        let mut pixels: Vec<[u8; 3]> = Vec::new();
        let mut i: usize = 0;
        proof {
            if enc {
                assert(px.take(0) =~= Seq::<[u8; 3]>::empty());
                assert(px.skip(0) =~= px);
            }
        }
        while i < count
            invariant
                pos <= b@.len(),
                i <= count,
                count == w * h,
                pixels@.len() == i,
                enc == (exists|m: Raster| m.storable() && ppm_text(m) == b@),
                enc ==> m.storable() && m.width == w && m.height == h && px == m.pixels,
                enc ==> pixels@ == px.take(i as int) && b@.subrange(pos as int, b@.len() as int)
                    == pixel_lines(px.skip(i as int)),
            decreases count - i,
        {
            let ghost c = px[i as int];
            let ghost rest = pixel_lines(px.skip(i + 1));
            proof {
                if enc {
                    assert(px.skip(i as int).drop_first() =~= px.skip(i + 1));
                    assert(px.skip(i as int)[0] == c);
                }
            }
            let (pixel, next) = match read_pixel(b, pos, Ghost(c), Ghost(rest)) {
                Some(f) => f,
                None => {
                    return None;
                },
            };
            proof {
                if enc {
                    assert(pixels@.push(pixel) =~= px.take(i + 1));
                }
            }
            pixels.push(pixel);
            pos = next;
            i = i + 1;
        }
        proof {
            if enc {
                assert(px.take(count as int) =~= px);
            }
        }
        let img = Image::from_pixels(w, h, pixels);
        let text = img.to_ppm();
        if bytes_equal(&text, b) {
            proof {
                assert(img@.storable() && ppm_text(img@) == b@);
                let m2 = choose|m2: Raster| m2.storable() && ppm_text(m2) == b@;
                lemma_ppm_injective(img@, m2);
            }
            Some(img)
        } else {
            proof {
                if enc {
                    assert(img@ == m);
                }
            }
            None
        }
    }
}

} // verus!
