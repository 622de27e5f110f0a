use vstd::prelude::*;

verus! {

/// Image description read from a QOI header.
#[derive(Copy, Clone, Debug)]
pub struct QoiDesc {
    pub width: u32,
    pub height: u32,
    pub channels: u8,
    pub colorspace: u8,
}

/// One decoded pixel.
#[derive(Copy, Clone, Debug)]
pub struct Rgba {
    pub r: u8,
    pub g: u8,
    pub b: u8,
    pub a: u8,
}

pub const QOI_HEADER_SIZE: usize = 14;
pub const QOI_PADDING_LEN: usize = 8;
pub const QOI_PIXELS_MAX: u32 = 400_000_000;
pub const QOI_MAGIC: u32 = 0x716f_6966;

/// Big-endian value of four bytes.
pub open spec fn be_u32(b0: u8, b1: u8, b2: u8, b3: u8) -> int {
    b0 * 0x100_0000 + b1 * 0x1_0000 + b2 * 0x100 + b3
}

/// Slot of a pixel in the 64-entry colour table.
pub open spec fn spec_colour_hash(px: Rgba) -> int {
    px.r * 3 + px.g * 5 + px.b * 7 + px.a * 11
}

fn colour_hash(px: Rgba) -> (h: usize)
    ensures
        h == spec_colour_hash(px),
{
    px.r as usize * 3 + px.g as usize * 5 + px.b as usize * 7 + px.a as usize * 11
}

fn read_u32_be(bytes: &[u8], p: &mut usize) -> (r: Result<u32, String>)
    ensures
        *old(p) + 4 <= bytes@.len() ==> {
            &&& r matches Ok(v)
            &&& v == be_u32(bytes@[*old(p) as int], bytes@[*old(p) + 1], bytes@[*old(p) + 2], bytes@[*old(p) + 3])
            &&& *final(p) == *old(p) + 4
        },
        *old(p) + 4 > bytes@.len() ==> {
            &&& r matches Err(e)
            &&& e@ == "Unexpected EOF reading header"@
            &&& *final(p) == *old(p)
        },
{
    if *p > bytes.len() || bytes.len() - *p < 4 {
        return Err("Unexpected EOF reading header".to_owned());
    }
    let b0 = bytes[*p];
    let b1 = bytes[*p + 1];
    let b2 = bytes[*p + 2];
    let b3 = bytes[*p + 3];
    let v = ((b0 as u32) << 24) | ((b1 as u32) << 16) | ((b2 as u32) << 8) | (b3 as u32);
    assert(((b0 as u32) << 24) | ((b1 as u32) << 16) | ((b2 as u32) << 8) | (b3 as u32)
        == b0 * 0x100_0000 + b1 * 0x1_0000 + b2 * 0x100 + b3) by (bit_vector);
    *p += 4;
    Ok(v)
}


/// The description stored in the first fourteen bytes of `b`.
pub open spec fn header_desc(b: Seq<u8>) -> QoiDesc
    recommends
        b.len() >= 14,
{
    QoiDesc {
        width: be_u32(b[4], b[5], b[6], b[7]) as u32,
        height: be_u32(b[8], b[9], b[10], b[11]) as u32,
        channels: b[12],
        colorspace: b[13],
    }
}

/// The message with which a header is refused, or `None` for a valid header.
pub open spec fn header_error(b: Seq<u8>) -> Option<Seq<char>> {
    if b.len() < QOI_HEADER_SIZE {
        Some("Too small to be a QOI file"@)
    } else {
        let d = header_desc(b);
        if be_u32(b[0], b[1], b[2], b[3]) != QOI_MAGIC {
            Some("Invalid QOI magic"@)
        } else if d.width == 0 || d.height == 0 {
            Some("Invalid QOI dimensions"@)
        } else if !(d.channels == 3 || d.channels == 4) {
            Some("Invalid channel count"@)
        } else if d.colorspace > 1 {
            Some("Invalid colorspace"@)
        } else if d.height >= QOI_PIXELS_MAX / d.width {
            Some("Image too large"@)
        } else {
            None
        }
    }
}

fn parse_header(bytes: &[u8], desc: &mut QoiDesc) -> (r: Result<usize, String>)
    ensures
        bytes@.len() < QOI_HEADER_SIZE ==> *final(desc) == *old(desc),
        bytes@.len() >= QOI_HEADER_SIZE ==> *final(desc) == header_desc(bytes@),
        header_error(bytes@) matches Some(m) ==> r matches Err(e) && e@ == m,
        header_error(bytes@) is None ==> r == Ok::<usize, String>(QOI_HEADER_SIZE),
{
    if bytes.len() < QOI_HEADER_SIZE {
        return Err("Too small to be a QOI file".to_owned());
    }
    let mut p: usize = 0;
    let magic = match read_u32_be(bytes, &mut p) {
        Ok(v) => v,
        Err(e) => return Err(e),
    };
    desc.width = match read_u32_be(bytes, &mut p) {
        Ok(v) => v,
        Err(e) => return Err(e),
    };
    desc.height = match read_u32_be(bytes, &mut p) {
        Ok(v) => v,
        Err(e) => return Err(e),
    };
    desc.channels = bytes[p];
    p += 1;
    desc.colorspace = bytes[p];
    p += 1;

    if magic != QOI_MAGIC {
        return Err("Invalid QOI magic".to_owned());
    }
    if desc.width == 0 || desc.height == 0 {
        return Err("Invalid QOI dimensions".to_owned());
    }
    if !(desc.channels == 3 || desc.channels == 4) {
        return Err("Invalid channel count".to_owned());
    }
    if desc.colorspace > 1 {
        return Err("Invalid colorspace".to_owned());
    }
    if desc.height >= QOI_PIXELS_MAX / desc.width {
        return Err("Image too large".to_owned());
    }
    Ok(p)
}


/// Decoder state between two pixels: the current pixel, the 64-entry colour
/// table, the pixels left in the current run and the read position.
pub struct DecodeState {
    pub px: Rgba,
    pub index: Seq<Rgba>,
    pub run: nat,
    pub pos: int,
}

/// `c + d` modulo 256.
pub open spec fn wrap_add(c: u8, d: int) -> u8 {
    ((c + d) % 256) as u8
}

/// Number of payload bytes that follow the tag byte `b1`.
pub open spec fn op_payload_len(b1: u8) -> int {
    if b1 == 0xFE {
        3
    } else if b1 == 0xFF {
        4
    } else if 0x80 <= b1 < 0xC0 {
        1
    } else {
        0
    }
}

/// The pixel, run counter and read position after the chunk with tag `b1`,
/// whose payload starts at `s.pos`.
pub open spec fn op_result(b: Seq<u8>, b1: u8, s: DecodeState) -> (Rgba, nat, int) {
    let q = s.pos;
    let px = s.px;
    if b1 == 0xFE {
        (Rgba { r: b[q], g: b[q + 1], b: b[q + 2], a: px.a }, s.run, q + 3)
    } else if b1 == 0xFF {
        (Rgba { r: b[q], g: b[q + 1], b: b[q + 2], a: b[q + 3] }, s.run, q + 4)
    } else if b1 < 0x40 {
        (s.index[b1 as int], s.run, q)
    } else if b1 < 0x80 {
        (
            Rgba {
                r: wrap_add(px.r, (b1 / 16) % 4 - 2),
                g: wrap_add(px.g, (b1 / 4) % 4 - 2),
                b: wrap_add(px.b, b1 % 4 - 2),
                a: px.a,
            },
            s.run,
            q,
        )
    } else if b1 < 0xC0 {
        let vg = b1 % 64 - 32;
        let b2 = b[q];
        (
            Rgba {
                r: wrap_add(px.r, vg - 8 + b2 / 16),
                g: wrap_add(px.g, vg),
                b: wrap_add(px.b, vg - 8 + b2 % 16),
                a: px.a,
            },
            s.run,
            q + 1,
        )
    } else {
        (px, (b1 % 64) as nat, q)
    }
}

/// The state after the chunk with tag `b1`: the new pixel is also stored in
/// the colour table at its hash slot.
pub open spec fn apply_op(b: Seq<u8>, b1: u8, s: DecodeState) -> DecodeState {
    let (px, run, pos) = op_result(b, b1, s);
    DecodeState { px, index: s.index.update(spec_colour_hash(px) % 64, px), run, pos }
}

/// The message with which a chunk whose payload runs past the end of the
/// data is refused.
pub open spec fn op_eof_message(b1: u8) -> Seq<char> {
    if b1 == 0xFE {
        "EOF in RGB"@
    } else if b1 == 0xFF {
        "EOF in RGBA"@
    } else {
        "EOF in LUMA"@
    }
}

/// The pixel as a chunk whose payload runs past the end leaves it: an RGB or
/// RGBA chunk has already stored each of its colour bytes that is present;
/// a LUMA chunk has stored nothing.
pub open spec fn op_partial_px(b: Seq<u8>, b1: u8, px: Rgba, q: int) -> Rgba {
    if b1 == 0xFE || b1 == 0xFF {
        Rgba {
            r: if q < b.len() { b[q] } else { px.r },
            g: if q + 1 < b.len() { b[q + 1] } else { px.g },
            b: if q + 2 < b.len() { b[q + 2] } else { px.b },
            a: if b1 == 0xFF && q + 3 < b.len() { b[q + 3] } else { px.a },
        }
    } else {
        px
    }
}

/// Exact wrapping of a signed byte delta.
proof fn lemma_wrapping_add_signed(x: u8, y: i8)
    ensures
        vstd::wrapping::u8_specs::wrapping_add_signed(x, y) == wrap_add(x, y as int),
{
}

fn process_op(
    b1: u8,
    bytes: &[u8],
    p: &mut usize,
    px: &mut Rgba,
    index: &mut Vec<Rgba>,
    run: &mut usize,
) -> (r: Result<(), String>)
    requires
        old(index)@.len() == 64,
    ensures
        final(index)@.len() == 64,
        (r is Ok) <==> (op_payload_len(b1) == 0 || *old(p) + op_payload_len(b1) <= bytes@.len()),
        r is Ok ==> ({
            let s = apply_op(
                bytes@,
                b1,
                DecodeState { px: *old(px), index: old(index)@, run: *old(run) as nat, pos: *old(p) as int },
            );
            &&& *final(px) == s.px
            &&& final(index)@ == s.index
            &&& *final(run) as nat == s.run
            &&& *final(p) as int == s.pos
        }),
        r matches Err(e) ==> {
            &&& e@ == op_eof_message(b1)
            &&& *final(px) == op_partial_px(bytes@, b1, *old(px), *old(p) as int)
            &&& final(index)@ == old(index)@
            &&& *final(run) == *old(run)
            &&& *final(p) == *old(p)
        },
{
    if b1 == 0xFE {
        if *p >= bytes.len() {
            return Err("EOF in RGB".to_owned());
        }
        px.r = bytes[*p];
        if *p + 1 >= bytes.len() {
            return Err("EOF in RGB".to_owned());
        }
        px.g = bytes[*p + 1];
        if *p + 2 >= bytes.len() {
            return Err("EOF in RGB".to_owned());
        }
        px.b = bytes[*p + 2];
        *p += 3;
    } else if b1 == 0xFF {
        if *p >= bytes.len() {
            return Err("EOF in RGBA".to_owned());
        }
        px.r = bytes[*p];
        if *p + 1 >= bytes.len() {
            return Err("EOF in RGBA".to_owned());
        }
        px.g = bytes[*p + 1];
        if *p + 2 >= bytes.len() {
            return Err("EOF in RGBA".to_owned());
        }
        px.b = bytes[*p + 2];
        if *p + 3 >= bytes.len() {
            return Err("EOF in RGBA".to_owned());
        }
        px.a = bytes[*p + 3];
        *p += 4;
    } else if b1 & 0xC0 == 0x00 {
        assert(b1 & 0xC0 == 0x00 ==> b1 < 0x40) by (bit_vector);
        assert(op_payload_len(b1) == 0);
        *px = index[b1 as usize];
    } else if b1 & 0xC0 == 0x40 {
        assert(b1 & 0xC0 == 0x40 ==> 0x40 <= b1 < 0x80) by (bit_vector);
        assert((b1 >> 4) & 0x03 == (b1 / 16) % 4) by (bit_vector);
        assert((b1 >> 2) & 0x03 == (b1 / 4) % 4) by (bit_vector);
        assert(b1 & 0x03 == b1 % 4) by (bit_vector);
        assert(op_payload_len(b1) == 0);
        let dr: i8 = ((b1 >> 4) & 0x03) as i8 - 2;
        let dg: i8 = ((b1 >> 2) & 0x03) as i8 - 2;
        let db: i8 = (b1 & 0x03) as i8 - 2;
        proof {
            lemma_wrapping_add_signed(px.r, dr);
            lemma_wrapping_add_signed(px.g, dg);
            lemma_wrapping_add_signed(px.b, db);
        }
        px.r = px.r.wrapping_add_signed(dr);
        px.g = px.g.wrapping_add_signed(dg);
        px.b = px.b.wrapping_add_signed(db);
    } else if b1 & 0xC0 == 0x80 {
        assert(b1 & 0xC0 == 0x80 ==> 0x80 <= b1 < 0xC0) by (bit_vector);
        if *p >= bytes.len() {
            return Err("EOF in LUMA".to_owned());
        }
        let b2 = bytes[*p];
        *p += 1;
        assert(b1 & 0x3f == b1 % 64) by (bit_vector);
        assert((b2 >> 4) & 0x0f == b2 / 16) by (bit_vector);
        assert(b2 & 0x0f == b2 % 16) by (bit_vector);
        let vg: i8 = (b1 & 0x3f) as i8 - 32;
        let dr: i8 = vg - 8 + ((b2 >> 4) & 0x0f) as i8;
        let db: i8 = vg - 8 + (b2 & 0x0f) as i8;
        proof {
            lemma_wrapping_add_signed(px.r, dr);
            lemma_wrapping_add_signed(px.g, vg);
            lemma_wrapping_add_signed(px.b, db);
        }
        px.r = px.r.wrapping_add_signed(dr);
        px.g = px.g.wrapping_add_signed(vg);
        px.b = px.b.wrapping_add_signed(db);
    } else {
        assert(b1 & 0xC0 != 0x00 && b1 & 0xC0 != 0x40 && b1 & 0xC0 != 0x80 ==> 0xC0 <= b1) by (bit_vector);
        assert(b1 & 0x3f == b1 % 64) by (bit_vector);
        assert(op_payload_len(b1) == 0);
        *run = (b1 & 0x3f) as usize;
    }
    let h = colour_hash(*px);
    index.set(h % 64, *px);
    Ok(())
}


/// The state in which decoding starts, reading chunks from `start`.
pub open spec fn initial_state(start: int) -> DecodeState {
    DecodeState {
        px: Rgba { r: 0, g: 0, b: 0, a: 255 },
        index: Seq::new(64, |i: int| Rgba { r: 0, g: 0, b: 0, a: 0 }),
        run: 0,
        pos: start,
    }
}

/// One pixel step: a pending run repeats the pixel; otherwise, while chunk
/// bytes remain before the end padding, the next chunk is read; once they are
/// exhausted the last pixel repeats.
pub open spec fn advance(b: Seq<u8>, s: DecodeState) -> DecodeState {
    if s.run > 0 {
        DecodeState { px: s.px, index: s.index, run: (s.run - 1) as nat, pos: s.pos }
    } else if s.pos < b.len() - QOI_PADDING_LEN {
        apply_op(b, b[s.pos], DecodeState { px: s.px, index: s.index, run: s.run, pos: s.pos + 1 })
    } else {
        s
    }
}

/// The decoder state once `n` pixels have been produced.
pub open spec fn state_after(b: Seq<u8>, start: int, n: nat) -> DecodeState
    decreases n,
{
    if n == 0 {
        initial_state(start)
    } else {
        advance(b, state_after(b, start, (n - 1) as nat))
    }
}

/// Pixel number `k` of the image (counting from 0).
pub open spec fn pixel_at(b: Seq<u8>, start: int, k: nat) -> Rgba {
    state_after(b, start, k + 1).px
}

/// The `c` output bytes of one pixel: red, green, blue, then alpha when `c`
/// is 4; any further bytes are zero.
pub open spec fn pixel_bytes(px: Rgba, c: nat) -> Seq<u8> {
    Seq::new(
        c,
        |j: int|
            if j == 0 {
                px.r
            } else if j == 1 {
                px.g
            } else if j == 2 {
                px.b
            } else if j == 3 && c == 4 {
                px.a
            } else {
                0u8
            },
    )
}

/// The output bytes of the first `n` pixels, `c` bytes per pixel.
pub open spec fn decoded_bytes(b: Seq<u8>, start: int, c: nat, n: nat) -> Seq<u8>
    decreases n,
{
    if n == 0 {
        Seq::empty()
    } else {
        decoded_bytes(b, start, c, (n - 1) as nat) + pixel_bytes(pixel_at(b, start, (n - 1) as nat), c)
    }
}

pub proof fn lemma_decoded_bytes_len(b: Seq<u8>, start: int, c: nat, n: nat)
    ensures
        decoded_bytes(b, start, c, n).len() == n * c,
    decreases n,
{
    if n > 0 {
        let m = (n - 1) as nat;
        lemma_decoded_bytes_len(b, start, c, m);
        assert(m * c + c == n * c) by (nonlinear_arith)
            requires
                m + 1 == n,
        ;
        assert(decoded_bytes(b, start, c, n).len() == m * c + c);
    } else {
        assert(n * c == 0) by (nonlinear_arith)
            requires
                n == 0,
        ;
    }
}

fn write_pixel(out: &mut Vec<u8>, pos: usize, px: Rgba, channels: usize)
    requires
        channels >= 3,
        pos + 3 <= old(out)@.len(),
        channels == 4 ==> pos + 4 <= old(out)@.len(),
    ensures
        final(out)@.len() == old(out)@.len(),
        forall|i: int|
            0 <= i < old(out)@.len() ==> #[trigger] final(out)@[i] == if pos <= i < pos + 3 || (channels == 4 && i == pos + 3) {
                pixel_bytes(px, channels as nat)[i - pos]
            } else {
                old(out)@[i]
            },
{
    assert(out@.len() == out.len());
    out.set(pos, px.r);
    out.set(pos + 1, px.g);
    out.set(pos + 2, px.b);
    if channels == 4 {
        out.set(pos + 3, px.a);
    }
}

fn decode_chunks(bytes: &[u8], p: usize, desc: &QoiDesc, channels: usize) -> (r: Result<Vec<u8>, String>)
    requires
        bytes@.len() >= QOI_PADDING_LEN,
        channels >= 3,
        desc.width * desc.height * channels <= usize::MAX,
    ensures
        r matches Ok(out) && out@ == decoded_bytes(
            bytes@,
            p as int,
            channels as nat,
            (desc.width * desc.height) as nat,
        ),
{
    let ghost n: nat = (desc.width * desc.height) as nat;
    let ghost c: nat = channels as nat;
    assert(desc.width * desc.height * channels == n * c);
    assert(desc.width * desc.height <= desc.width * desc.height * channels) by (nonlinear_arith)
        requires
            channels >= 3,
    ;
    let total_px: usize = desc.width as usize * desc.height as usize * channels;
    let mut out: Vec<u8> = vec![0u8; total_px];
    let chunks_end: usize = bytes.len() - QOI_PADDING_LEN;
    let mut index: Vec<Rgba> = vec![Rgba { r: 0, g: 0, b: 0, a: 0 }; 64];
    let mut px = Rgba { r: 0, g: 0, b: 0, a: 255 };
    let mut run: usize = 0;
    let mut pos: usize = 0;
    let mut p = p;
    let ghost start: int = p as int;
    let ghost mut k: nat = 0;
    assert(index@ =~= initial_state(start).index);
    assert(out@ =~= decoded_bytes(bytes@, start, c, 0) + Seq::new((total_px - pos) as nat, |i: int| 0u8));

    while pos < total_px
        invariant
            total_px == n * c,
            c == channels,
            c >= 3,
            chunks_end == bytes@.len() - QOI_PADDING_LEN,
            pos == k * c,
            pos <= total_px,
            index@.len() == 64,
            state_after(bytes@, start, k) == (DecodeState { px, index: index@, run: run as nat, pos: p as int }),
            out@ =~= decoded_bytes(bytes@, start, c, k) + Seq::new((total_px - pos) as nat, |i: int| 0u8),
        decreases total_px - pos,
    {
        proof {
            lemma_decoded_bytes_len(bytes@, start, c, k);
            assert(k * c < n * c ==> k + 1 <= n) by (nonlinear_arith);
            assert((k + 1) * c <= n * c) by (nonlinear_arith) requires k + 1 <= n;
            assert((k + 1) * c == k * c + c) by (nonlinear_arith);
        }
        let ghost prev = DecodeState { px, index: index@, run: run as nat, pos: p as int };
        if run > 0 {
            run -= 1;
        } else if p < chunks_end {
            let b1 = bytes[p];
            p += 1;
            match process_op(b1, bytes, &mut p, &mut px, &mut index, &mut run) {
                Ok(()) => {},
                Err(e) => return Err(e),
            }
        }
        assert(state_after(bytes@, start, k + 1) == (DecodeState { px, index: index@, run: run as nat, pos: p as int }));
        let ghost before = out@;
        write_pixel(&mut out, pos, px, channels);
        proof {
            let pb = pixel_bytes(px, c);
            assert(pixel_at(bytes@, start, k) == px);
            assert(out@ =~= decoded_bytes(bytes@, start, c, k + 1) + Seq::new((total_px - (pos + channels)) as nat, |i: int| 0u8));
            k = k + 1;
        }
        pos += channels;
    }
    proof {
        assert(k * c >= n * c ==> k >= n) by (nonlinear_arith) requires c > 0;
        assert(k * c <= n * c ==> k <= n) by (nonlinear_arith) requires c > 0;
    }
    assert(out@ =~= decoded_bytes(bytes@, start, c, n));
    Ok(out)
}


/// Bytes per output pixel: the requested count, or the header's when none
/// (0) is requested.
pub open spec fn output_channels(req_channels: nat, header_channels: u8) -> nat {
    if req_channels == 0 {
        header_channels as nat
    } else {
        req_channels
    }
}

/// What decoding `b` gives: the header's error message, or the pixel bytes
/// of the whole image.
pub open spec fn qoi_decode(b: Seq<u8>, req_channels: nat) -> Result<Seq<u8>, Seq<char>> {
    match header_error(b) {
        Some(m) => Err(m),
        None => {
            let d = header_desc(b);
            Ok(
                decoded_bytes(
                    b,
                    QOI_HEADER_SIZE as int,
                    output_channels(req_channels, d.channels),
                    (d.width * d.height) as nat,
                ),
            )
        },
    }
}

/// Pixel count bound that a valid header guarantees.
proof fn lemma_valid_header_pixels(w: u32, h: u32)
    requires
        w > 0,
        h < QOI_PIXELS_MAX / w,
    ensures
        w * h < QOI_PIXELS_MAX,
{
    let q: int = QOI_PIXELS_MAX as int;
    let wi: int = w as int;
    let hi: int = h as int;
    let d: int = q / wi;
    vstd::arithmetic::div_mod::lemma_fundamental_div_mod(q, wi);
    assert(hi + 1 <= d);
    assert((hi + 1) * wi <= d * wi) by (nonlinear_arith)
        requires
            hi + 1 <= d,
            wi > 0,
    ;
    assert(d * wi <= q) by (nonlinear_arith)
        requires
            q == wi * d + q % wi,
            q % wi >= 0,
    ;
    assert(wi * hi < q) by (nonlinear_arith)
        requires
            (hi + 1) * wi <= q,
            wi > 0,
    ;
}

/// Decodes a QOI image into `req_channels` bytes per pixel (the header's
/// channel count when `req_channels` is 0). The header fields are stored in
/// `desc` as soon as the header's fourteen bytes are present, also when the
/// header is then refused.
pub fn decode(bytes: &[u8], req_channels: usize, desc: &mut QoiDesc) -> (r: Result<Vec<u8>, String>)
    requires
        req_channels == 0 || req_channels >= 3,
        header_error(bytes@) is None ==> header_desc(bytes@).width * header_desc(bytes@).height
            * output_channels(req_channels as nat, header_desc(bytes@).channels) <= usize::MAX,
    ensures
        bytes@.len() < QOI_HEADER_SIZE ==> *final(desc) == *old(desc),
        bytes@.len() >= QOI_HEADER_SIZE ==> *final(desc) == header_desc(bytes@),
        match r {
            Ok(v) => qoi_decode(bytes@, req_channels as nat) == Ok::<Seq<u8>, Seq<char>>(v@),
            Err(e) => qoi_decode(bytes@, req_channels as nat) == Err::<Seq<u8>, Seq<char>>(e@),
        },
        r matches Ok(v) ==> v@.len() == final(desc).width * final(desc).height * output_channels(
            req_channels as nat,
            final(desc).channels,
        ),
{
    let p = match parse_header(bytes, desc) {
        Ok(p) => p,
        Err(e) => return Err(e),
    };
    let channels = if req_channels == 0 {
        desc.channels as usize
    } else {
        req_channels
    };
    proof {
        lemma_decoded_bytes_len(bytes@, p as int, channels as nat, (desc.width * desc.height) as nat);
    }
    decode_chunks(bytes, p, desc, channels)
}

/// Whether the output of decoding `bytes` into `req_channels` bytes per pixel
/// (the header's count when 0) has a size that a `usize` can hold; true for
/// data whose header is refused, which decodes to an error.
pub fn output_size_fits(bytes: &[u8], req_channels: usize) -> (r: bool)
    ensures
        r == (header_error(bytes@) is None ==> header_desc(bytes@).width * header_desc(bytes@).height
            * output_channels(req_channels as nat, header_desc(bytes@).channels) <= usize::MAX),
{
    let mut d = QoiDesc { width: 0, height: 0, channels: 0, colorspace: 0 };
    match parse_header(bytes, &mut d) {
        Err(_) => true,
        Ok(_) => {
            let channels: usize = if req_channels == 0 {
                d.channels as usize
            } else {
                req_channels
            };
            proof {
                lemma_valid_header_pixels(d.width, d.height);
            }
            let pixels: usize = d.width as usize * d.height as usize;
            pixels.checked_mul(channels).is_some()
        },
    }
}

/// A decoded RGBA image.
#[derive(Debug)]
pub struct RawImage {
    pub data: Vec<u8>,
    pub width: u32,
    pub height: u32,
}

/// Decodes the bytes of a QOI file into four bytes (RGBA) per pixel.
pub fn read_as_raw(bytes: &[u8]) -> (r: Result<RawImage, String>)
    ensures
        match qoi_decode(bytes@, 4) {
            Ok(data) => r matches Ok(img) && img.data@ == data && img.width == header_desc(bytes@).width
                && img.height == header_desc(bytes@).height,
            Err(m) => r matches Err(e) && e@ == m,
        },
{
    let mut desc = QoiDesc { width: 0, height: 0, channels: 0, colorspace: 0 };
    proof {
        if header_error(bytes@) is None {
            let d = header_desc(bytes@);
            lemma_valid_header_pixels(d.width, d.height);
            assert(d.width * d.height * 4 <= usize::MAX) by (nonlinear_arith)
                requires
                    d.width * d.height < QOI_PIXELS_MAX,
            ;
        }
    }
    let data = match decode(bytes, 4, &mut desc) {
        Ok(d) => d,
        Err(e) => return Err(e),
    };
    Ok(RawImage { data, width: desc.width, height: desc.height })
}


/// Once a chunk has been read, the colour table holds the current pixel at
/// the pixel's hash slot; the read position never moves back.
pub proof fn lemma_index_holds_current_pixel(b: Seq<u8>, start: int, n: nat)
    ensures
        state_after(b, start, n).pos >= start,
        state_after(b, start, n).index.len() == 64,
        ({
            let s = state_after(b, start, n);
            s.pos != start ==> s.index[spec_colour_hash(s.px) % 64] == s.px
        }),
    decreases n,
{
    if n > 0 {
        lemma_index_holds_current_pixel(b, start, (n - 1) as nat);
    }
}

/// While `k` run pixels are pending, the next `k` pixels repeat the current
/// one.
pub proof fn lemma_run_repeats_pixel(b: Seq<u8>, start: int, n: nat, j: nat)
    requires
        j < state_after(b, start, n).run,
    ensures
        pixel_at(b, start, n + j) == state_after(b, start, n).px,
        state_after(b, start, n + j + 1).run == state_after(b, start, n).run - j - 1,
    decreases j,
{
    if j > 0 {
        lemma_run_repeats_pixel(b, start, n, (j - 1) as nat);
        assert(n + j + 1 - 1 == n + (j - 1) + 1);
    }
}

/// Once no run is pending and the chunk bytes before the end padding are
/// used up, every later pixel repeats the current one.
pub proof fn lemma_exhausted_data_repeats(b: Seq<u8>, start: int, n: nat, m: nat)
    requires
        state_after(b, start, n).run == 0,
        state_after(b, start, n).pos >= b.len() - QOI_PADDING_LEN,
        n <= m,
    ensures
        state_after(b, start, m) == state_after(b, start, n),
        pixel_at(b, start, m) == state_after(b, start, n).px,
    decreases m - n,
{
    if m > n {
        lemma_exhausted_data_repeats(b, start, n, (m - 1) as nat);
    }
}

/// The `c` bytes of pixel `i` in a sequence of `c` bytes per pixel.
pub open spec fn pixel_slice(v: Seq<u8>, c: nat, i: int) -> Seq<u8> {
    v.subrange(i * c, i * c + c)
}

/// Pixel `i` of a sequence of RGBA bytes.
pub open spec fn rgba_at(v: Seq<u8>, i: int) -> Rgba {
    Rgba { r: v[i * 4], g: v[i * 4 + 1], b: v[i * 4 + 2], a: v[i * 4 + 3] }
}

/// The bytes of pixel `i` in the output are the bytes of that pixel.
proof fn lemma_decoded_pixel_slice(b: Seq<u8>, start: int, c: nat, n: nat, i: int)
    requires
        0 <= i < n,
    ensures
        pixel_slice(decoded_bytes(b, start, c, n), c, i) == pixel_bytes(pixel_at(b, start, i as nat), c),
    decreases n,
{
    let m = (n - 1) as nat;
    let prev = decoded_bytes(b, start, c, m);
    let d = decoded_bytes(b, start, c, n);
    lemma_decoded_bytes_len(b, start, c, m);
    assert(prev.len() == m * c);
    if i < m {
        lemma_decoded_pixel_slice(b, start, c, m, i);
        assert(i * c + c <= m * c) by (nonlinear_arith)
            requires
                i + 1 <= m,
        ;
        assert(0 <= i * c) by (nonlinear_arith)
            requires
                0 <= i,
        ;
        assert(pixel_slice(d, c, i) =~= pixel_slice(prev, c, i));
    } else {
        assert(i * c == m * c);
        assert(pixel_slice(d, c, i) =~= pixel_bytes(pixel_at(b, start, m), c));
    }
}

/// The channel count only selects bytes: decoding with any channel count
/// succeeds exactly when decoding to RGBA does, and each output pixel holds
/// the red, green and blue of the RGBA pixel, its alpha when four channels
/// are asked for, and zeros in any further channel.
pub proof fn lemma_channels_only_select(b: Seq<u8>, req_channels: nat)
    requires
        req_channels == 0 || req_channels >= 3,
        qoi_decode(b, 4) is Ok,
    ensures
        ({
            let d = header_desc(b);
            let n = (d.width * d.height) as nat;
            let c = output_channels(req_channels, d.channels);
            let v4 = qoi_decode(b, 4)->Ok_0;
            &&& qoi_decode(b, req_channels) is Ok
            &&& v4.len() == n * 4
            &&& qoi_decode(b, req_channels)->Ok_0.len() == n * c
            &&& forall|i: int|
                0 <= i < n ==> #[trigger] pixel_slice(qoi_decode(b, req_channels)->Ok_0, c, i)
                    == pixel_bytes(rgba_at(v4, i), c)
            &&& c == 4 ==> qoi_decode(b, req_channels)->Ok_0 == v4
        }),
{
    let d = header_desc(b);
    let n = (d.width * d.height) as nat;
    let c = output_channels(req_channels, d.channels);
    let start = QOI_HEADER_SIZE as int;
    let v4 = qoi_decode(b, 4)->Ok_0;
    let v = qoi_decode(b, req_channels)->Ok_0;
    assert(v4 == decoded_bytes(b, start, 4, n));
    assert(v == decoded_bytes(b, start, c, n));
    lemma_decoded_bytes_len(b, start, 4, n);
    lemma_decoded_bytes_len(b, start, c, n);
    assert forall|i: int| 0 <= i < n implies #[trigger] pixel_slice(v, c, i) == pixel_bytes(rgba_at(v4, i), c) by {
        lemma_decoded_pixel_slice(b, start, c, n, i);
        lemma_decoded_pixel_slice(b, start, 4, n, i);
        let px = pixel_at(b, start, i as nat);
        let s4 = pixel_slice(v4, 4, i);
        assert(s4 == pixel_bytes(px, 4));
        assert(s4[0] == v4[i * 4]);
        assert(s4[1] == v4[i * 4 + 1]);
        assert(s4[2] == v4[i * 4 + 2]);
        assert(s4[3] == v4[i * 4 + 3]);
        assert(rgba_at(v4, i) == px);
    }
}

/// The colour-table slot of a pixel, written out: `(3r + 5g + 7b + 11a) mod 64`.
pub open spec fn slot_of(r: u8, g: u8, b: u8, a: u8) -> int {
    (r * 3 + g * 5 + b * 7 + a * 11) % 64
}

/// The state in which chunk reading resumes after pixel `n`, when no run is
/// pending and a chunk tag lies before the end padding.
pub open spec fn reads_chunk(b: Seq<u8>, start: int, n: nat) -> bool {
    let s = state_after(b, start, n);
    &&& 0 <= start
    &&& s.run == 0
    &&& s.pos < b.len() - QOI_PADDING_LEN
}

/// Decoding starts from opaque black with an empty (all-zero) colour table,
/// no pending run, at the first chunk.
pub proof fn lemma_start_state(b: Seq<u8>, start: int)
    ensures
        state_after(b, start, 0).px == (Rgba { r: 0, g: 0, b: 0, a: 255 }),
        state_after(b, start, 0).run == 0,
        state_after(b, start, 0).pos == start,
        state_after(b, start, 0).index.len() == 64,
        forall|i: int| 0 <= i < 64 ==> #[trigger] state_after(b, start, 0).index[i] == (Rgba { r: 0, g: 0, b: 0, a: 0 }),
{
}

/// An RGB chunk (tag 0xFE) sets red, green and blue from the next three
/// bytes, keeps alpha, and stores the pixel at its slot.
pub proof fn lemma_rgb_chunk(b: Seq<u8>, start: int, n: nat)
    requires
        reads_chunk(b, start, n),
        b[state_after(b, start, n).pos] == 0xFE,
    ensures
        ({
            let s = state_after(b, start, n);
            let t = state_after(b, start, n + 1);
            let q = s.pos;
            &&& t.px == (Rgba { r: b[q + 1], g: b[q + 2], b: b[q + 3], a: s.px.a })
            &&& t.run == 0
            &&& t.pos == q + 4
            &&& t.index == s.index.update(slot_of(t.px.r, t.px.g, t.px.b, t.px.a), t.px)
        }),
{
    lemma_index_holds_current_pixel(b, start, n);
}

/// An RGBA chunk (tag 0xFF) sets all four channels from the next four bytes
/// and stores the pixel at its slot.
pub proof fn lemma_rgba_chunk(b: Seq<u8>, start: int, n: nat)
    requires
        reads_chunk(b, start, n),
        b[state_after(b, start, n).pos] == 0xFF,
    ensures
        ({
            let s = state_after(b, start, n);
            let t = state_after(b, start, n + 1);
            let q = s.pos;
            &&& t.px == (Rgba { r: b[q + 1], g: b[q + 2], b: b[q + 3], a: b[q + 4] })
            &&& t.run == 0
            &&& t.pos == q + 5
            &&& t.index == s.index.update(slot_of(t.px.r, t.px.g, t.px.b, t.px.a), t.px)
        }),
{
    lemma_index_holds_current_pixel(b, start, n);
}

/// An INDEX chunk (tag 0x00 to 0x3F) recalls the pixel stored at the slot the
/// tag names.
pub proof fn lemma_index_chunk(b: Seq<u8>, start: int, n: nat)
    requires
        reads_chunk(b, start, n),
        b[state_after(b, start, n).pos] < 0x40,
    ensures
        ({
            let s = state_after(b, start, n);
            let t = state_after(b, start, n + 1);
            let tag = b[s.pos];
            &&& t.px == s.index[tag as int]
            &&& t.run == 0
            &&& t.pos == s.pos + 1
            &&& t.index == s.index.update(slot_of(t.px.r, t.px.g, t.px.b, t.px.a), t.px)
        }),
{
    lemma_index_holds_current_pixel(b, start, n);
}

/// A DIFF chunk (tag 0x40 | dr << 4 | dg << 2 | db) adds dr - 2, dg - 2 and
/// db - 2 to red, green and blue, modulo 256, and keeps alpha.
pub proof fn lemma_diff_chunk(b: Seq<u8>, start: int, n: nat)
    requires
        reads_chunk(b, start, n),
        0x40 <= b[state_after(b, start, n).pos] < 0x80,
    ensures
        ({
            let s = state_after(b, start, n);
            let t = state_after(b, start, n + 1);
            let tag = b[s.pos];
            &&& t.px.r == (s.px.r + (tag / 16) % 4 - 2) % 256
            &&& t.px.g == (s.px.g + (tag / 4) % 4 - 2) % 256
            &&& t.px.b == (s.px.b + tag % 4 - 2) % 256
            &&& t.px.a == s.px.a
            &&& t.run == 0
            &&& t.pos == s.pos + 1
            &&& t.index == s.index.update(slot_of(t.px.r, t.px.g, t.px.b, t.px.a), t.px)
        }),
{
    lemma_index_holds_current_pixel(b, start, n);
}

/// A LUMA chunk (tag 0x80 | (dg + 32), then a byte (dr - dg + 8) << 4 |
/// (db - dg + 8)) adds dg to green and dr, db to red and blue, modulo 256,
/// and keeps alpha.
pub proof fn lemma_luma_chunk(b: Seq<u8>, start: int, n: nat)
    requires
        reads_chunk(b, start, n),
        0x80 <= b[state_after(b, start, n).pos] < 0xC0,
    ensures
        ({
            let s = state_after(b, start, n);
            let t = state_after(b, start, n + 1);
            let tag = b[s.pos];
            let second = b[s.pos + 1];
            let dg = tag % 64 - 32;
            &&& t.px.g == (s.px.g + dg) % 256
            &&& t.px.r == (s.px.r + dg + second / 16 - 8) % 256
            &&& t.px.b == (s.px.b + dg + second % 16 - 8) % 256
            &&& t.px.a == s.px.a
            &&& t.run == 0
            &&& t.pos == s.pos + 2
            &&& t.index == s.index.update(slot_of(t.px.r, t.px.g, t.px.b, t.px.a), t.px)
        }),
{
    lemma_index_holds_current_pixel(b, start, n);
}

/// While a run chunk's extra pixels are given out, the pixel, the table and
/// the read position stay as the chunk left them.
proof fn lemma_run_unwinds(b: Seq<u8>, start: int, n: nat, j: nat)
    requires
        j <= state_after(b, start, n).run,
    ensures
        ({
            let s = state_after(b, start, n);
            state_after(b, start, n + j) == (DecodeState {
                px: s.px,
                index: s.index,
                run: (s.run - j) as nat,
                pos: s.pos,
            })
        }),
    decreases j,
{
    if j > 0 {
        lemma_run_unwinds(b, start, n, (j - 1) as nat);
        assert(n + j == (n + (j - 1)) + 1);
    }
}

/// A RUN chunk (tag 0xC0 | k, k below 62) gives the current pixel exactly
/// k + 1 times: for the tag itself and k more pixels. After them no run is
/// pending and the next pixel is read from the byte after the tag.
pub proof fn lemma_run_chunk(b: Seq<u8>, start: int, n: nat)
    requires
        reads_chunk(b, start, n),
        0xC0 <= b[state_after(b, start, n).pos] < 0xFE,
    ensures
        ({
            let s = state_after(b, start, n);
            let k = (b[s.pos] % 64) as nat;
            &&& forall|j: nat| j <= k ==> #[trigger] pixel_at(b, start, n + j) == s.px
            &&& state_after(b, start, n + 1).run == k
            &&& state_after(b, start, n + k + 1).run == 0
            &&& state_after(b, start, n + k + 1).pos == s.pos + 1
            &&& state_after(b, start, n + k + 1).px == s.px
        }),
{
    let s = state_after(b, start, n);
    let k = (b[s.pos] % 64) as nat;
    let t = state_after(b, start, n + 1);
    assert(t.run == k);
    assert(t.px == s.px);
    assert forall|j: nat| j <= k implies #[trigger] pixel_at(b, start, n + j) == s.px by {
        lemma_run_unwinds(b, start, n + 1, j);
        assert(n + j + 1 == (n + 1) + j);
    }
    lemma_run_unwinds(b, start, n + 1, k);
    assert(n + k + 1 == (n + 1) + k);
}

/// The output bytes, written out: with `c` bytes per pixel (the requested
/// count, or the header's byte 12 when 0 is requested), pixel `i` of the
/// image gives red, green, blue, then alpha when `c` is 4, and zeros in any
/// further byte; pixels are counted from the chunk after the fourteen header
/// bytes.
pub proof fn lemma_output_bytes(b: Seq<u8>, req_channels: nat)
    requires
        req_channels == 0 || req_channels >= 3,
        header_error(b) is None,
    ensures
        ({
            let c: nat = if req_channels == 0 { b[12] as nat } else { req_channels };
            let n: nat = (header_desc(b).width * header_desc(b).height) as nat;
            let v = qoi_decode(b, req_channels)->Ok_0;
            &&& qoi_decode(b, req_channels) is Ok
            &&& v.len() == n * c
            &&& forall|i: int, j: int|
                0 <= i < n && 0 <= j < c ==> #[trigger] pixel_slice(v, c, i)[j] == (if j == 0 {
                    pixel_at(b, 14, i as nat).r
                } else if j == 1 {
                    pixel_at(b, 14, i as nat).g
                } else if j == 2 {
                    pixel_at(b, 14, i as nat).b
                } else if j == 3 && c == 4 {
                    pixel_at(b, 14, i as nat).a
                } else {
                    0u8
                })
        }),
{
    let c: nat = if req_channels == 0 { b[12] as nat } else { req_channels };
    let n: nat = (header_desc(b).width * header_desc(b).height) as nat;
    let v = qoi_decode(b, req_channels)->Ok_0;
    assert(c == output_channels(req_channels, header_desc(b).channels));
    assert(v == decoded_bytes(b, 14, c, n));
    lemma_decoded_bytes_len(b, 14, c, n);
    assert forall|i: int, j: int| 0 <= i < n && 0 <= j < c implies #[trigger] pixel_slice(v, c, i)[j] == (if j == 0 {
        pixel_at(b, 14, i as nat).r
    } else if j == 1 {
        pixel_at(b, 14, i as nat).g
    } else if j == 2 {
        pixel_at(b, 14, i as nat).b
    } else if j == 3 && c == 4 {
        pixel_at(b, 14, i as nat).a
    } else {
        0u8
    }) by {
        lemma_decoded_pixel_slice(b, 14, c, n, i);
    }
}

/// The header, written out: bytes 0 to 3 spell `qoif`, width and height are
/// the big-endian words at bytes 4 and 8, and the channel count and colour
/// space are bytes 12 and 13. A header is accepted exactly when it has all
/// fourteen bytes, the magic, a non-zero width and height, 3 or 4 channels,
/// colour space 0 or 1, and a height below 400 000 000 / width.
pub proof fn lemma_header_fields(b: Seq<u8>)
    ensures
        b.len() >= 14 ==> {
            &&& header_desc(b).width == b[4] * 16777216 + b[5] * 65536 + b[6] * 256 + b[7]
            &&& header_desc(b).height == b[8] * 16777216 + b[9] * 65536 + b[10] * 256 + b[11]
            &&& header_desc(b).channels == b[12]
            &&& header_desc(b).colorspace == b[13]
        },
        header_error(b) is None <==> {
            &&& b.len() >= 14
            &&& b[0] == 0x71 && b[1] == 0x6F && b[2] == 0x69 && b[3] == 0x66
            &&& header_desc(b).width > 0 && header_desc(b).height > 0
            &&& (b[12] == 3 || b[12] == 4)
            &&& b[13] <= 1
            &&& header_desc(b).height < 400_000_000int / (header_desc(b).width as int)
        },
{
    if b.len() >= 14 {
        let w = be_u32(b[4], b[5], b[6], b[7]);
        let h = be_u32(b[8], b[9], b[10], b[11]);
        assert(0 <= w <= u32::MAX);
        assert(0 <= h <= u32::MAX);
    }
}

} // verus!
