//! The devices the kernel talks to, as traits their drivers implement, and
//! the buffering a polled console input needs.
use vstd::prelude::*;

use std::collections::VecDeque;

verus! {

/// A character device.
pub trait CharDevice {
    fn init(&self);

    /// Blocks until a byte is there.
    fn read(&self) -> u8;

    fn write(&self, ch: u8);
}

/// A display with a linear framebuffer.
pub trait GpuDevice {
    fn update_cursor(&self);

    /// Physical address and length in bytes of the framebuffer.
    fn get_framebuffer(&self) -> (usize, usize);

    /// Pushes the framebuffer to the screen.
    fn flush(&self);
}

/// A keyboard or mouse.
pub trait InputDevice {
    /// Blocks until an event is there; events are packed by `encode_input_event`.
    fn read_event(&self) -> u64;

    fn handle_irq(&self);

    fn is_empty(&self) -> bool;
}

/// One input event as a single word: the type in bits 48 and up, the code in
/// bits 32 to 47, the value in the low 32 bits.
pub open spec fn input_event_word(event_type: u16, code: u16, value: u32) -> int {
    event_type as int * 0x1_0000_0000_0000 + code as int * 0x1_0000_0000 + value as int
}

/// Packs an input event into one word.
pub fn encode_input_event(event_type: u16, code: u16, value: u32) -> (r: u64)
    ensures
        r == input_event_word(event_type, code, value),
{
    let t = event_type as u64;
    let c = code as u64;
    let v = value as u64;
    let r = (t << 48u64) | (c << 32u64) | v;
    assert(r == t * 0x1_0000_0000_0000 + c * 0x1_0000_0000 + v) by (bit_vector)
        requires
            t < 0x1_0000,
            c < 0x1_0000,
            v < 0x1_0000_0000,
            r == (t << 48u64) | (c << 32u64) | v,
    ;
    r
}

/// Console input read by polling, with the bytes polled ahead of time.
pub struct PolyInput {
    buffer: VecDeque<u8>,
}

impl PolyInput {
    /// The bytes polled and not read yet, oldest first.
    pub closed spec fn buffered(&self) -> Seq<u8> {
        self.buffer@
    }

    /// An input with nothing buffered.
    pub fn new() -> (r: Self)
        ensures
            r.buffered() == Seq::<u8>::empty(),
    {
        PolyInput { buffer: VecDeque::new() }
    }

    /// Takes in the outcome of one poll of the console: a byte that came is
    /// buffered. Returns whether one came.
    pub fn read_buffer_is_empty(&mut self, polled: Option<u8>) -> (r: bool)
        ensures
            r == polled is Some,
            final(self).buffered() == match polled {
                Some(c) => old(self).buffered().push(c),
                None => old(self).buffered(),
            },
    {
        match polled {
            Some(c) => {
                self.buffer.push_back(c);
                true
            },
            None => false,
        }
    }

    /// Whether no polled byte waits; only then does a reader need to poll.
    pub fn is_empty(&self) -> (r: bool)
        ensures
            r == (self.buffered().len() == 0),
    {
        self.buffer.len() == 0
    }

    /// The next byte to read: the oldest buffered one, else the one just
    /// polled; `None` when there is neither, and the reader must wait. A byte
    /// polled while older ones wait is buffered behind them, so none is lost.
    pub fn next_char(&mut self, polled: Option<u8>) -> (r: Option<u8>)
        ensures
            old(self).buffered().len() > 0 ==> r == Some(old(self).buffered()[0])
                && final(self).buffered() == match polled {
                Some(c) => old(self).buffered().drop_first().push(c),
                None => old(self).buffered().drop_first(),
            },
            old(self).buffered().len() == 0 ==> r == polled && final(self).buffered() == old(self).buffered(),
    {
        match self.buffer.pop_front() {
            Some(c) => {
                if let Some(p) = polled {
                    self.buffer.push_back(p);
                }
                Some(c)
            },
            None => polled,
        }
    }
}

/// The alpha byte of a cursor pixel: white is transparent, anything else opaque.
pub open spec fn cursor_alpha(px: Seq<u8>) -> u8 {
    if px == seq![255u8, 255u8, 255u8] {
        0
    } else {
        0xff
    }
}

/// Cursor pixel data with four bytes per pixel: each group of three bytes
/// (a shorter one at the end too) followed by its alpha byte.
pub open spec fn rgba_of(raw: Seq<u8>) -> Seq<u8>
    decreases raw.len(),
{
    if raw.len() == 0 {
        Seq::empty()
    } else if raw.len() <= 3 {
        raw.push(cursor_alpha(raw))
    } else {
        raw.take(3).push(cursor_alpha(raw.take(3))) + rgba_of(raw.skip(3))
    }
}

/// Adds an alpha byte after each three-byte pixel of a cursor image.
pub fn cursor_image(raw: &Vec<u8>) -> (r: Vec<u8>)
    ensures
        r@ == rgba_of(raw@),
{
    let n = raw.len();
    let mut out: Vec<u8> = Vec::new();
    let mut i: usize = 0;
    assert(raw@.skip(0) =~= raw@);
    assert(out@ + rgba_of(raw@.skip(0)) =~= rgba_of(raw@));
    while i < n
        invariant
            n == raw@.len(),
            i <= n,
            out@ + rgba_of(raw@.skip(i as int)) == rgba_of(raw@),
        decreases n - i,
    {
        let end = if n - i < 3 { n } else { i + 3 };
        let ghost rest = raw@.skip(i as int);
        let mut k: usize = i;
        let ghost before = out@;
        while k < end
            invariant
                i <= k <= end,
                end <= n,
                n == raw@.len(),
                out@ == before + raw@.subrange(i as int, k as int),
            decreases end - k,
        {
            out.push(raw[k]);
            proof {
                assert(raw@.subrange(i as int, k as int + 1) =~= raw@.subrange(i as int, k as int).push(raw@[k as int]));
            }
            k += 1;
        }
        let white = end - i == 3 && raw[i] == 255 && raw[i + 1] == 255 && raw[i + 2] == 255;
        let ghost chunk = raw@.subrange(i as int, end as int);
        proof {
            if end - i == 3 {
                assert(white == (chunk =~= seq![255u8, 255u8, 255u8]));
            } else {
                assert(chunk.len() != 3);
            }
        }
        out.push(if white { 0u8 } else { 0xffu8 });
        proof {
            if rest.len() <= 3 {
                assert(rest =~= chunk);
                assert(raw@.skip(end as int) =~= Seq::<u8>::empty());
            } else {
                assert(rest.take(3) =~= chunk);
                assert(rest.skip(3) =~= raw@.skip(end as int));
            }
            assert(out@ + rgba_of(raw@.skip(end as int)) =~= rgba_of(raw@));
        }
        i = end;
    }
    proof {
        assert(raw@.skip(n as int) =~= Seq::<u8>::empty());
        assert(out@ =~= out@ + rgba_of(raw@.skip(n as int)));
    }
    out
}

/// The pixel data of a BMP file as tinybmp parses it, or `None` when it
/// does not parse.
pub uninterp spec fn bmp_image_data(data: Seq<u8>) -> Option<Seq<u8>>;

/// Relies on tinybmp's `Bmp::<Rgb888>::from_slice` and `RawBmp::image_data`:
/// the pixel data of a BMP file, which depends on its bytes alone.
#[verifier::external_body]
fn parse_bmp(data: &[u8]) -> (r: Option<Vec<u8>>)
    ensures
        r is Some == bmp_image_data(data@) is Some,
        r matches Some(v) ==> Some(v@) == bmp_image_data(data@),
{
    match tinybmp::Bmp::<embedded_graphics::pixelcolor::Rgb888>::from_slice(data) {
        Ok(bmp) => Some(bmp.as_raw().image_data().to_vec()),
        Err(_) => None,
    }
}

/// The cursor image for the display from a BMP file: its pixel data with an
/// alpha byte after each pixel; `None` when the file does not parse.
pub fn cursor_from_bmp(data: &[u8]) -> (r: Option<Vec<u8>>)
    ensures
        r is Some == bmp_image_data(data@) is Some,
        r matches Some(v) ==> v@ == rgba_of(bmp_image_data(data@).unwrap()),
{
    match parse_bmp(data) {
        Some(raw) => Some(cursor_image(&raw)),
        None => None,
    }
}

} // verus!
