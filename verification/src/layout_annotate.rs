//! Drawing layout blocks onto page screenshots.
use crate::error::LiteParseError;
use crate::float::F32;
use crate::text::{chars_of, to_decimal, trim};
use crate::types::LayoutBlock;
use image::ImageEncoder;
use vstd::prelude::*;
use vstd::slice::*;
use vstd::string::*;

verus! {

/// The colors of block outlines.
pub const PALETTE: [[u8; 3]; 12] = [
    [230, 57, 70],
    [29, 78, 216],
    [22, 163, 74],
    [217, 119, 6],
    [147, 51, 234],
    [8, 145, 178],
    [219, 39, 119],
    [101, 163, 13],
    [79, 70, 229],
    [234, 88, 12],
    [15, 118, 110],
    [190, 24, 93],
];

/// The glyphs: seven rows of five pixels each, the leftmost pixel in the highest bit.
pub const GLYPHS: [[u8; 7]; 40] = [
    // A
    [0b01110, 0b10001, 0b10001, 0b11111, 0b10001, 0b10001, 0b10001],
    // B
    [0b11110, 0b10001, 0b10001, 0b11110, 0b10001, 0b10001, 0b11110],
    // C
    [0b01110, 0b10001, 0b10000, 0b10000, 0b10000, 0b10001, 0b01110],
    // D
    [0b11110, 0b10001, 0b10001, 0b10001, 0b10001, 0b10001, 0b11110],
    // E
    [0b11111, 0b10000, 0b10000, 0b11110, 0b10000, 0b10000, 0b11111],
    // F
    [0b11111, 0b10000, 0b10000, 0b11110, 0b10000, 0b10000, 0b10000],
    // G
    [0b01110, 0b10001, 0b10000, 0b10111, 0b10001, 0b10001, 0b01110],
    // H
    [0b10001, 0b10001, 0b10001, 0b11111, 0b10001, 0b10001, 0b10001],
    // I
    [0b11111, 0b00100, 0b00100, 0b00100, 0b00100, 0b00100, 0b11111],
    // J
    [0b00111, 0b00010, 0b00010, 0b00010, 0b10010, 0b10010, 0b01100],
    // K
    [0b10001, 0b10010, 0b10100, 0b11000, 0b10100, 0b10010, 0b10001],
    // L
    [0b10000, 0b10000, 0b10000, 0b10000, 0b10000, 0b10000, 0b11111],
    // M
    [0b10001, 0b11011, 0b10101, 0b10101, 0b10001, 0b10001, 0b10001],
    // N
    [0b10001, 0b11001, 0b10101, 0b10011, 0b10001, 0b10001, 0b10001],
    // O
    [0b01110, 0b10001, 0b10001, 0b10001, 0b10001, 0b10001, 0b01110],
    // P
    [0b11110, 0b10001, 0b10001, 0b11110, 0b10000, 0b10000, 0b10000],
    // Q
    [0b01110, 0b10001, 0b10001, 0b10001, 0b10101, 0b10010, 0b01101],
    // R
    [0b11110, 0b10001, 0b10001, 0b11110, 0b10100, 0b10010, 0b10001],
    // S
    [0b01111, 0b10000, 0b10000, 0b01110, 0b00001, 0b00001, 0b11110],
    // T
    [0b11111, 0b00100, 0b00100, 0b00100, 0b00100, 0b00100, 0b00100],
    // U
    [0b10001, 0b10001, 0b10001, 0b10001, 0b10001, 0b10001, 0b01110],
    // V
    [0b10001, 0b10001, 0b10001, 0b10001, 0b10001, 0b01010, 0b00100],
    // W
    [0b10001, 0b10001, 0b10001, 0b10101, 0b10101, 0b10101, 0b01010],
    // X
    [0b10001, 0b10001, 0b01010, 0b00100, 0b01010, 0b10001, 0b10001],
    // Y
    [0b10001, 0b10001, 0b01010, 0b00100, 0b00100, 0b00100, 0b00100],
    // Z
    [0b11111, 0b00001, 0b00010, 0b00100, 0b01000, 0b10000, 0b11111],
    // 0
    [0b01110, 0b10001, 0b10011, 0b10101, 0b11001, 0b10001, 0b01110],
    // 1
    [0b00100, 0b01100, 0b00100, 0b00100, 0b00100, 0b00100, 0b01110],
    // 2
    [0b01110, 0b10001, 0b00001, 0b00010, 0b00100, 0b01000, 0b11111],
    // 3
    [0b11110, 0b00001, 0b00001, 0b01110, 0b00001, 0b00001, 0b11110],
    // 4
    [0b00010, 0b00110, 0b01010, 0b10010, 0b11111, 0b00010, 0b00010],
    // 5
    [0b11111, 0b10000, 0b10000, 0b11110, 0b00001, 0b00001, 0b11110],
    // 6
    [0b01110, 0b10000, 0b10000, 0b11110, 0b10001, 0b10001, 0b01110],
    // 7
    [0b11111, 0b00001, 0b00010, 0b00100, 0b01000, 0b01000, 0b01000],
    // 8
    [0b01110, 0b10001, 0b10001, 0b01110, 0b10001, 0b10001, 0b01110],
    // 9
    [0b01110, 0b10001, 0b10001, 0b01111, 0b00001, 0b00001, 0b01110],
    // -
    [0b00000, 0b00000, 0b00000, 0b11111, 0b00000, 0b00000, 0b00000],
    // _
    [0b00000, 0b00000, 0b00000, 0b00000, 0b00000, 0b00000, 0b11111],
    // space
    [0b00000, 0b00000, 0b00000, 0b00000, 0b00000, 0b00000, 0b00000],
    // any other character
    [0b11111, 0b00001, 0b00010, 0b00100, 0b00100, 0b00000, 0b00100],
];

/// The place of a character's glyph.
pub open spec fn glyph_index(c: char) -> int {
    if 'A' <= c <= 'Z' {
        c as int - 'A' as int
    } else if 'a' <= c <= 'z' {
        c as int - 'a' as int
    } else if '0' <= c <= '9' {
        c as int - '0' as int + 26
    } else if c == '-' {
        36
    } else if c == '_' {
        37
    } else if c == ' ' {
        38
    } else {
        39
    }
}

/// The bit of a glyph row that stands for a column.
pub open spec fn column_bit(column: int) -> int {
    if column == 0 {
        16
    } else if column == 1 {
        8
    } else if column == 2 {
        4
    } else if column == 3 {
        2
    } else {
        1
    }
}

/// The glyph of a character.
pub open spec fn glyph_of(c: char) -> Seq<u8> {
    GLYPHS@[glyph_index(c)]@
}

/// Whether a pixel of a glyph is set.
pub open spec fn glyph_pixel(c: char, row: int, column: int) -> bool {
    (glyph_of(c)[row] as int / column_bit(column)) % 2 == 1
}

/// The rows of a glyph as the digits of one number.
spec fn glyph_number(g: Seq<u8>) -> int {
    (((((g[0] as int * 32 + g[1]) * 32 + g[2]) * 32 + g[3]) * 32 + g[4]) * 32 + g[5]) * 32 + g[6]
}

/// The number of the glyph at a place of the table.
spec fn number_at(i: int) -> int {
    glyph_number(GLYPHS@[i]@)
}

/// The place in the table of the glyph with a number.
spec fn place_of_number(n: int) -> int {
    if n == 15621670449 {
        0
    } else if n == 32801506878 {
        1
    } else if n == 15620129326 {
        2
    } else if n == 32801080894 {
        3
    } else if n == 33840644639 {
        4
    } else if n == 33840644624 {
        5
    } else if n == 15620359726 {
        6
    } else if n == 18842895921 {
        7
    } else if n == 33424543903 {
        8
    } else if n == 7585483340 {
        9
    } else if n == 18879369809 {
        10
    } else if n == 17734058527 {
        11
    } else if n == 19182306865 {
        12
    } else if n == 19115132465 {
        13
    } else if n == 15621211694 {
        14
    } else if n == 32801505808 {
        15
    } else if n == 15621215821 {
        16
    } else if n == 32801509969 {
        17
    } else if n == 16660235326 {
        18
    } else if n == 33424543876 {
        19
    } else if n == 18842437166 {
        20
    } else if n == 18842436932 {
        21
    } else if n == 18842572458 {
        22
    } else if n == 18834663985 {
        23
    } else if n == 18834657412 {
        24
    } else if n == 33321787935 {
        25
    } else if n == 15623448110 {
        26
    } else if n == 4701950094 {
        27
    } else if n == 15603929375 {
        28
    } else if n == 32247317566 {
        29
    } else if n == 2359917634 {
        30
    } else if n == 33840628798 {
        31
    } else if n == 15587034670 {
        32
    } else if n == 33321787656 {
        33
    } else if n == 15621113390 {
        34
    } else if n == 15621129262 {
        35
    } else if n == 1015808 {
        36
    } else if n == 31 {
        37
    } else if n == 0 {
        38
    } else {
        39
    }
}

proof fn lemma_glyph_places(i: int)
    requires
        0 <= i < 40,
    ensures
        place_of_number(number_at(i)) == i,
{
    assert(number_at(0) == 15621670449);
    assert(number_at(1) == 32801506878);
    assert(number_at(2) == 15620129326);
    assert(number_at(3) == 32801080894);
    assert(number_at(4) == 33840644639);
    assert(number_at(5) == 33840644624);
    assert(number_at(6) == 15620359726);
    assert(number_at(7) == 18842895921);
    assert(number_at(8) == 33424543903);
    assert(number_at(9) == 7585483340);
    assert(number_at(10) == 18879369809);
    assert(number_at(11) == 17734058527);
    assert(number_at(12) == 19182306865);
    assert(number_at(13) == 19115132465);
    assert(number_at(14) == 15621211694);
    assert(number_at(15) == 32801505808);
    assert(number_at(16) == 15621215821);
    assert(number_at(17) == 32801509969);
    assert(number_at(18) == 16660235326);
    assert(number_at(19) == 33424543876);
    assert(number_at(20) == 18842437166);
    assert(number_at(21) == 18842436932);
    assert(number_at(22) == 18842572458);
    assert(number_at(23) == 18834663985);
    assert(number_at(24) == 18834657412);
    assert(number_at(25) == 33321787935);
    assert(number_at(26) == 15623448110);
    assert(number_at(27) == 4701950094);
    assert(number_at(28) == 15603929375);
    assert(number_at(29) == 32247317566);
    assert(number_at(30) == 2359917634);
    assert(number_at(31) == 33840628798);
    assert(number_at(32) == 15587034670);
    assert(number_at(33) == 33321787656);
    assert(number_at(34) == 15621113390);
    assert(number_at(35) == 15621129262);
    assert(number_at(36) == 1015808);
    assert(number_at(37) == 31);
    assert(number_at(38) == 0);
    assert(number_at(39) == 33321783300);
}

/// The character in upper case, if it is a letter of ASCII.
pub open spec fn in_upper_case(c: char) -> char {
    if 'a' <= c <= 'z' {
        (c as int - 32) as char
    } else {
        c
    }
}

/// Whether a character has a glyph of its own, apart from case.
pub open spec fn has_own_glyph(c: char) -> bool {
    'A' <= c <= 'Z' || 'a' <= c <= 'z' || '0' <= c <= '9' || c == '-' || c == '_' || c == ' '
}

/// A glyph has seven rows of five pixels.
pub proof fn glyphs_are_seven_by_five(c: char, row: int)
    requires
        0 <= row < 7,
    ensures
        glyph_of(c).len() == 7,
        glyph_of(c)[row] < 32,
{
}

/// Letters look the same in upper and in lower case.
pub proof fn case_does_not_matter(c: char)
    ensures
        glyph_of(c) == glyph_of(in_upper_case(c)),
{
}

/// Letters, digits, the hyphen, the underscore and the blank look different from each other, apart
/// from case, and from every other character; the others all look the same, and the blank shows
/// nothing.
pub proof fn glyphs_are_distinct(a: char, b: char)
    ensures
        has_own_glyph(a) && glyph_of(a) == glyph_of(b) ==> in_upper_case(a) == in_upper_case(b),
        has_own_glyph(a) <==> glyph_of(a) != seq![31u8, 1, 2, 4, 4, 0, 4],
        a == ' ' ==> glyph_of(a) == seq![0u8, 0, 0, 0, 0, 0, 0],
{
    lemma_glyph_places(glyph_index(a));
    lemma_glyph_places(glyph_index(b));
    lemma_glyph_places(glyph_index('?'));
    assert(glyph_of('?') =~= seq![31u8, 1, 2, 4, 4, 0, 4]);
    if a == ' ' {
        assert(glyph_of(a) =~= seq![0u8, 0, 0, 0, 0, 0, 0]);
    }
}

/// The hash of the bytes of a label.
pub open spec fn label_hash(bytes: Seq<u8>) -> usize
    decreases bytes.len(),
{
    if bytes.len() == 0 {
        0
    } else {
        label_hash(bytes.drop_last()).wrapping_mul(31).wrapping_add(bytes.last() as usize)
    }
}

/// The color of a label.
pub open spec fn color_of(label: Seq<char>) -> Seq<u8> {
    PALETTE@[(label_hash(vstd::utf8::encode_utf8(label)) % 12) as int]@
}

/// A picture: its pixels with four bytes each, its width and its height.
#[verifier::ext_equal]
pub struct Picture {
    pub bytes: Seq<u8>,
    pub width: int,
    pub height: int,
}

impl Picture {
    /// Whether there are four bytes for each pixel.
    pub open spec fn well_formed(self) -> bool {
        0 <= self.width && 0 <= self.height && self.bytes.len() == self.width * self.height * 4
    }

    /// Whether a pixel is in the picture.
    pub open spec fn has(self, x: int, y: int) -> bool {
        0 <= x < self.width && 0 <= y < self.height
    }

    /// Where the bytes of a pixel start.
    pub open spec fn offset(self, x: int, y: int) -> int {
        (y * self.width + x) * 4
    }

    /// The picture with the bytes of a pixel replaced, if it is in the picture.
    pub open spec fn with_pixel(self, x: int, y: int, r: u8, g: u8, b: u8, a: u8) -> Picture {
        if self.has(x, y) {
            let i = self.offset(x, y);
            Picture {
                bytes: self.bytes.update(i, r).update(i + 1, g).update(i + 2, b).update(i + 3, a),
                ..self
            }
        } else {
            self
        }
    }

    /// The picture with a pixel set to a color.
    pub open spec fn set(self, x: int, y: int, c: Seq<u8>) -> Picture {
        self.with_pixel(x, y, c[0], c[1], c[2], 255)
    }

    /// A byte mixed with another one, of which it takes a share of 255 parts.
    pub open spec fn mixed(below: u8, above: u8, alpha: u8) -> u8 {
        ((above * alpha + below * (255 - alpha)) / 255) as u8
    }

    /// The picture with a color laid over a pixel.
    pub open spec fn blend(self, x: int, y: int, c: Seq<u8>, alpha: u8) -> Picture {
        let i = self.offset(x, y);
        self.with_pixel(
            x,
            y,
            Picture::mixed(self.bytes[i], c[0], alpha),
            Picture::mixed(self.bytes[i + 1], c[1], alpha),
            Picture::mixed(self.bytes[i + 2], c[2], alpha),
            255,
        )
    }

    /// The picture with a horizontal line from `x0` to `x1`.
    pub open spec fn hline(self, x0: int, x1: int, y: int, c: Seq<u8>) -> Picture
        decreases x1 - x0 + 1,
    {
        if x1 < x0 {
            self
        } else {
            self.hline(x0, x1 - 1, y, c).set(x1, y, c)
        }
    }

    /// The picture with a vertical line from `y0` to `y1`.
    pub open spec fn vline(self, x: int, y0: int, y1: int, c: Seq<u8>) -> Picture
        decreases y1 - y0 + 1,
    {
        if y1 < y0 {
            self
        } else {
            self.vline(x, y0, y1 - 1, c).set(x, y1, c)
        }
    }

    /// The picture with a frame, `inset` pixels inside of a rectangle.
    pub open spec fn frame(self, x0: int, y0: int, x1: int, y1: int, inset: int, c: Seq<u8>) -> Picture {
        self.hline(x0, x1, y0 + inset, c).hline(x0, x1, y1 - inset, c).vline(
            x0 + inset,
            y0,
            y1,
            c,
        ).vline(x1 - inset, y0, y1, c)
    }

    /// The picture with the outline of a rectangle, two pixels wide.
    pub open spec fn outline(self, x0: int, y0: int, x1: int, y1: int, c: Seq<u8>) -> Picture {
        self.frame(x0, y0, x1, y1, 0, c).frame(x0, y0, x1, y1, 1, c)
    }

    /// The picture with a color laid over the pixels of a row from `x0` up to `x1`.
    pub open spec fn blend_row(self, x0: int, x1: int, y: int, c: Seq<u8>, alpha: u8) -> Picture
        decreases x1 - x0,
    {
        if x1 <= x0 {
            self
        } else {
            self.blend_row(x0, x1 - 1, y, c, alpha).blend(x1 - 1, y, c, alpha)
        }
    }

    /// The picture with a color laid over a rectangle.
    pub open spec fn fill(self, x0: int, y0: int, x1: int, y1: int, c: Seq<u8>, alpha: u8) -> Picture
        decreases y1 - y0,
    {
        if y1 <= y0 {
            self
        } else {
            self.fill(x0, y0, x1, y1 - 1, c, alpha).blend_row(x0, x1, y1 - 1, c, alpha)
        }
    }

    /// The picture with the first `n` pixels of a row of a glyph.
    pub open spec fn glyph_row(self, x: int, y: int, ch: char, row: int, n: int, c: Seq<u8>) -> Picture
        decreases n,
    {
        if n <= 0 {
            self
        } else {
            let before = self.glyph_row(x, y, ch, row, n - 1, c);
            if glyph_pixel(ch, row, n - 1) {
                before.set(x + n - 1, y + row, c)
            } else {
                before
            }
        }
    }

    /// The picture with the first `n` rows of a glyph.
    pub open spec fn glyph_rows(self, x: int, y: int, ch: char, n: int, c: Seq<u8>) -> Picture
        decreases n,
    {
        if n <= 0 {
            self
        } else {
            self.glyph_rows(x, y, ch, n - 1, c).glyph_row(x, y, ch, n - 1, 5, c)
        }
    }

    /// The picture with the first `n` characters of a text, as far as they start in the picture.
    pub open spec fn text(self, x: int, y: int, chars: Seq<char>, n: int, c: Seq<u8>) -> Picture
        decreases n,
    {
        if n <= 0 {
            self
        } else {
            let before = self.text(x, y, chars, n - 1, c);
            if x + 6 * (n - 1) < self.width {
                before.glyph_rows(x + 6 * (n - 1), y, chars[n - 1], 7, c)
            } else {
                before
            }
        }
    }

    /// The picture with a label: its text in white on a box of its color, above the place if
    /// there is room.
    pub open spec fn label(self, x: int, y: int, label: Seq<char>, c: Seq<u8>) -> Picture {
        let chars = crate::text::trimmed(label);
        let wide = chars.len() as int * 6 + 6;
        let box_width = if wide < self.width - x {
            wide
        } else {
            self.width - x
        };
        let box_y = if y >= 13 {
            y - 13
        } else {
            y
        };
        if chars.len() == 0 {
            self
        } else {
            self.fill(x, box_y, x + box_width, box_y + 13, c, 220).text(
                x + 3,
                box_y + 3,
                chars,
                chars.len() as int,
                seq![255, 255, 255],
            )
        }
    }

    /// A pixel coordinate brought into the picture.
    pub open spec fn inside(v: int, length: int) -> int {
        let low = if v < 0 {
            0
        } else {
            v
        };
        if low < length - 1 {
            low
        } else {
            length - 1
        }
    }

    /// The left, top, right and bottom pixels of a block of a page of the given size.
    pub open spec fn block_box(self, page_width: F32, page_height: F32, block: LayoutBlock) -> (
        int,
        int,
        int,
        int,
    ) {
        let scale_x = F32::from_nat(self.width as nat).over(page_width);
        let scale_y = F32::from_nat(self.height as nat).over(page_height);
        let left = block.x.times(scale_x);
        let top = block.y.times(scale_y);
        let right = block.x.plus(block.width).times(scale_x);
        let bottom = block.y.plus(block.height).times(scale_y);
        (
            Picture::inside(left.as_i32(left.floor_int()) as int, self.width),
            Picture::inside(top.as_i32(top.floor_int()) as int, self.height),
            Picture::inside(right.as_i32(right.ceil_int()) as int, self.width),
            Picture::inside(bottom.as_i32(bottom.ceil_int()) as int, self.height),
        )
    }

    /// The picture with the outline and the label of a block of a page of the given size.
    pub open spec fn block(self, page_width: F32, page_height: F32, block: LayoutBlock) -> Picture {
        let (x0, y0, x1, y1) = self.block_box(page_width, page_height, block);
        let c = color_of(block.label@);
        if x1 <= x0 || y1 <= y0 {
            self
        } else {
            self.outline(x0, y0, x1, y1, c).label(x0, y0, block.label@, c)
        }
    }

    /// The picture with the blocks of a page, if the page has a size.
    pub open spec fn blocks(self, page_width: F32, page_height: F32, blocks: Seq<LayoutBlock>) -> Picture
        decreases blocks.len(),
    {
        let zero = F32 { bits: 0 };
        if blocks.len() == 0 || !zero.less(page_width) || !zero.less(page_height) {
            self
        } else {
            self.blocks(page_width, page_height, blocks.drop_last()).block(
                page_width,
                page_height,
                blocks.last(),
            )
        }
    }
}

/// The pixels of a picture while it is drawn on.
pub struct Canvas {
    pub rgba: Vec<u8>,
    pub width: u32,
    pub height: u32,
}

impl View for Canvas {
    type V = Picture;

    open spec fn view(&self) -> Picture {
        Picture { bytes: self.rgba@, width: self.width as int, height: self.height as int }
    }
}

/// A pixel of a picture has its bytes in the picture.
proof fn lemma_offset(p: Picture, x: int, y: int)
    requires
        p.well_formed(),
        p.has(x, y),
    ensures
        0 <= p.offset(x, y),
        p.offset(x, y) + 3 < p.bytes.len(),
        0 <= y * p.width,
        y * p.width + x < p.width * p.height,
{
    assert(y * p.width + x < p.width * p.height && 0 <= y * p.width) by (nonlinear_arith)
        requires
            0 <= x < p.width,
            0 <= y < p.height,
    ;
}

/// The share of two bytes is a byte.
proof fn lemma_mixed(below: u8, above: u8, alpha: u8)
    ensures
        0 <= above * alpha <= 255 * alpha,
        0 <= below * (255 - alpha) <= 255 * (255 - alpha),
        0 <= (above * alpha + below * (255 - alpha)) / 255 <= 255,
{
    assert(0 <= above * alpha <= 255 * alpha) by (nonlinear_arith)
        requires
            0 <= above <= 255,
            0 <= alpha,
    ;
    assert(0 <= below * (255 - alpha) <= 255 * (255 - alpha)) by (nonlinear_arith)
        requires
            0 <= below <= 255,
            0 <= alpha <= 255,
    ;
}

/// A byte mixed with another one.
fn mix(below: u8, above: u8, alpha: u8) -> (r: u8)
    ensures
        r == Picture::mixed(below, above, alpha),
{
    proof {
        lemma_mixed(below, above, alpha);
    }
    ((above as u16 * alpha as u16 + below as u16 * (255 - alpha as u16)) / 255) as u8
}

/// The color of a label.
fn label_color(label: &str) -> (r: [u8; 3])
    ensures
        r@ == color_of(label@),
{
    let bytes: &[u8] = label.as_bytes();
    let mut hash: usize = 0;
    let mut i: usize = 0;
    while i < bytes.len()
        invariant
            i <= bytes@.len(),
            hash == label_hash(bytes@.take(i as int)),
        decreases bytes@.len() - i,
    {
        assert(bytes@.take(i + 1).drop_last() =~= bytes@.take(i as int));
        hash = hash.wrapping_mul(31).wrapping_add(*slice_index_get(bytes, i) as usize);
        i = i + 1;
    }
    assert(bytes@.take(i as int) =~= bytes@);
    PALETTE[hash % 12]
}

/// The place of a character's glyph.
fn glyph_position(c: char) -> (r: usize)
    ensures
        r == glyph_index(c),
        r < 40,
{
    if 'A' <= c && c <= 'Z' {
        (c as u32 - 'A' as u32) as usize
    } else if 'a' <= c && c <= 'z' {
        (c as u32 - 'a' as u32) as usize
    } else if '0' <= c && c <= '9' {
        (c as u32 - '0' as u32) as usize + 26
    } else if c == '-' {
        36
    } else if c == '_' {
        37
    } else if c == ' ' {
        38
    } else {
        39
    }
}

/// The glyph of a character.
pub fn glyph(c: char) -> (r: [u8; 7])
    ensures
        r@ == glyph_of(c),
{
    GLYPHS[glyph_position(c)]
}

/// Whether a pixel of a row of a glyph is set.
fn pixel_set(bits: u8, column: usize) -> (r: bool)
    requires
        column < 5,
    ensures
        r == ((bits as int / column_bit(column as int)) % 2 == 1),
{
    let bit: u8 = match column {
        0 => 16,
        1 => 8,
        2 => 4,
        3 => 2,
        _ => 1,
    };
    (bits / bit) % 2 == 1
}

/// A pixel coordinate brought into a picture.
fn clamp_coordinate(v: i32, length: u32) -> (r: i64)
    ensures
        r == Picture::inside(v as int, length as int),
{
    let low: i64 = if v < 0 {
        0
    } else {
        v as i64
    };
    let last: i64 = length as i64 - 1;
    if low < last {
        low
    } else {
        last
    }
}

impl Canvas {
    /// Sets a pixel to a color.
    fn set_pixel(&mut self, x: i64, y: i64, color: [u8; 3])
        requires
            old(self)@.well_formed(),
        ensures
            final(self)@ == old(self)@.set(x as int, y as int, color@),
            final(self)@.well_formed(),
            final(self).width == old(self).width,
            final(self).height == old(self).height,
    {
        if x < 0 || y < 0 || x >= self.width as i64 || y >= self.height as i64 {
            return;
        }
        let length: usize = self.rgba.len();
        proof {
            lemma_offset(self@, x as int, y as int);
            assert(4 * (self@.width * self@.height) == length);
        }
        let i: usize = (y as usize * self.width as usize + x as usize) * 4;
        self.rgba[i] = color[0];
        self.rgba[i + 1] = color[1];
        self.rgba[i + 2] = color[2];
        self.rgba[i + 3] = 255;
        assert(self@ =~= old(self)@.set(x as int, y as int, color@));
    }

    /// Lays a color over a pixel.
    fn blend_pixel(&mut self, x: i64, y: i64, color: [u8; 3], alpha: u8)
        requires
            old(self)@.well_formed(),
        ensures
            final(self)@ == old(self)@.blend(x as int, y as int, color@, alpha),
            final(self)@.well_formed(),
            final(self).width == old(self).width,
            final(self).height == old(self).height,
    {
        if x < 0 || y < 0 || x >= self.width as i64 || y >= self.height as i64 {
            return;
        }
        let length: usize = self.rgba.len();
        proof {
            lemma_offset(self@, x as int, y as int);
            assert(4 * (self@.width * self@.height) == length);
        }
        let i: usize = (y as usize * self.width as usize + x as usize) * 4;
        self.rgba[i] = mix(self.rgba[i], color[0], alpha);
        self.rgba[i + 1] = mix(self.rgba[i + 1], color[1], alpha);
        self.rgba[i + 2] = mix(self.rgba[i + 2], color[2], alpha);
        self.rgba[i + 3] = 255;
        assert(self@ =~= old(self)@.blend(x as int, y as int, color@, alpha));
    }

    /// Draws a horizontal line.
    fn draw_hline(&mut self, x0: i64, x1: i64, y: i64, color: [u8; 3])
        requires
            old(self)@.well_formed(),
            0 <= x0,
            x1 < i64::MAX,
        ensures
            final(self)@ == old(self)@.hline(x0 as int, x1 as int, y as int, color@),
            final(self)@.well_formed(),
            final(self).width == old(self).width,
            final(self).height == old(self).height,
    {
        let mut x: i64 = x0;
        while x <= x1
            invariant
                x0 <= x,
                x <= x1 + 1 || x == x0,
                x1 < i64::MAX,
                self@ == old(self)@.hline(x0 as int, x - 1, y as int, color@),
                self@.well_formed(),
                self.width == old(self).width,
                self.height == old(self).height,
            decreases x1 - x + 1,
        {
            self.set_pixel(x, y, color);
            x = x + 1;
        }
    }

    /// Draws a vertical line.
    fn draw_vline(&mut self, x: i64, y0: i64, y1: i64, color: [u8; 3])
        requires
            old(self)@.well_formed(),
            0 <= y0,
            y1 < i64::MAX,
        ensures
            final(self)@ == old(self)@.vline(x as int, y0 as int, y1 as int, color@),
            final(self)@.well_formed(),
            final(self).width == old(self).width,
            final(self).height == old(self).height,
    {
        let mut y: i64 = y0;
        while y <= y1
            invariant
                y0 <= y,
                y <= y1 + 1 || y == y0,
                y1 < i64::MAX,
                self@ == old(self)@.vline(x as int, y0 as int, y - 1, color@),
                self@.well_formed(),
                self.width == old(self).width,
                self.height == old(self).height,
            decreases y1 - y + 1,
        {
            self.set_pixel(x, y, color);
            y = y + 1;
        }
    }

    /// Draws the outline of a rectangle, two pixels wide.
    fn draw_rect_outline(&mut self, x0: i64, y0: i64, x1: i64, y1: i64, color: [u8; 3])
        requires
            old(self)@.well_formed(),
            0 <= x0 < x1 < 0x1_0000_0000,
            0 <= y0 < y1 < 0x1_0000_0000,
        ensures
            final(self)@ == old(self)@.outline(x0 as int, y0 as int, x1 as int, y1 as int, color@),
            final(self)@.well_formed(),
            final(self).width == old(self).width,
            final(self).height == old(self).height,
    {
        self.draw_hline(x0, x1, y0, color);
        self.draw_hline(x0, x1, y1, color);
        self.draw_vline(x0, y0, y1, color);
        self.draw_vline(x1, y0, y1, color);
        self.draw_hline(x0, x1, y0 + 1, color);
        self.draw_hline(x0, x1, y1 - 1, color);
        self.draw_vline(x0 + 1, y0, y1, color);
        self.draw_vline(x1 - 1, y0, y1, color);
    }

    /// Lays a color over the pixels of a row.
    fn fill_row_alpha(&mut self, x0: i64, x1: i64, y: i64, color: [u8; 3], alpha: u8)
        requires
            old(self)@.well_formed(),
        ensures
            final(self)@ == old(self)@.blend_row(x0 as int, x1 as int, y as int, color@, alpha),
            final(self)@.well_formed(),
            final(self).width == old(self).width,
            final(self).height == old(self).height,
    {
        let mut x: i64 = x0;
        while x < x1
            invariant
                x0 <= x,
                x <= x1 || x == x0,
                self@ == old(self)@.blend_row(x0 as int, x as int, y as int, color@, alpha),
                self@.well_formed(),
                self.width == old(self).width,
                self.height == old(self).height,
            decreases x1 - x,
        {
            self.blend_pixel(x, y, color, alpha);
            x = x + 1;
        }
    }

    /// Lays a color over a rectangle.
    fn fill_rect_alpha(
        &mut self,
        x0: i64,
        y0: i64,
        x1: i64,
        y1: i64,
        color: [u8; 3],
        alpha: u8,
    )
        requires
            old(self)@.well_formed(),
        ensures
            final(self)@ == old(self)@.fill(
                x0 as int,
                y0 as int,
                x1 as int,
                y1 as int,
                color@,
                alpha,
            ),
            final(self)@.well_formed(),
            final(self).width == old(self).width,
            final(self).height == old(self).height,
    {
        let mut y: i64 = y0;
        while y < y1
            invariant
                y0 <= y,
                y <= y1 || y == y0,
                self@ == old(self)@.fill(x0 as int, y0 as int, x1 as int, y as int, color@, alpha),
                self@.well_formed(),
                self.width == old(self).width,
                self.height == old(self).height,
            decreases y1 - y,
        {
            self.fill_row_alpha(x0, x1, y, color, alpha);
            y = y + 1;
        }
    }

    /// Draws a character.
    fn draw_char(&mut self, x: i64, y: i64, ch: char, color: [u8; 3])
        requires
            old(self)@.well_formed(),
            0 <= x < 0x2_0000_0000,
            0 <= y < 0x2_0000_0000,
        ensures
            final(self)@ == old(self)@.glyph_rows(x as int, y as int, ch, 7, color@),
            final(self)@.well_formed(),
            final(self).width == old(self).width,
            final(self).height == old(self).height,
    {
        let rows: [u8; 7] = glyph(ch);
        let mut row: usize = 0;
        while row < 7
            invariant
                row <= 7,
                rows@ == glyph_of(ch),
                0 <= x < 0x2_0000_0000,
                0 <= y < 0x2_0000_0000,
                self@ == old(self)@.glyph_rows(x as int, y as int, ch, row as int, color@),
                self@.well_formed(),
                self.width == old(self).width,
                self.height == old(self).height,
            decreases 7 - row,
        {
            let ghost before = self@;
            let mut column: usize = 0;
            while column < 5
                invariant
                    column <= 5,
                    row < 7,
                    rows@ == glyph_of(ch),
                    0 <= x < 0x2_0000_0000,
                    0 <= y < 0x2_0000_0000,
                    self@ == before.glyph_row(
                        x as int,
                        y as int,
                        ch,
                        row as int,
                        column as int,
                        color@,
                    ),
                    self@.well_formed(),
                    self.width == old(self).width,
                    self.height == old(self).height,
                decreases 5 - column,
            {
                if pixel_set(rows[row], column) {
                    self.set_pixel(x + column as i64, y + row as i64, color);
                }
                column = column + 1;
            }
            row = row + 1;
        }
    }

    /// Draws a text.
    fn draw_text(&mut self, x: i64, y: i64, text: &Vec<char>, color: [u8; 3])
        requires
            old(self)@.well_formed(),
            0 <= x < 0x2_0000_0000,
            0 <= y < 0x2_0000_0000,
        ensures
            final(self)@ == old(self)@.text(
                x as int,
                y as int,
                text@,
                text@.len() as int,
                color@,
            ),
            final(self)@.well_formed(),
            final(self).width == old(self).width,
            final(self).height == old(self).height,
    {
        let mut cursor: i64 = x;
        let mut i: usize = 0;
        while i < text.len()
            invariant
                i <= text@.len(),
                0 <= x < 0x2_0000_0000,
                0 <= y < 0x2_0000_0000,
                cursor < self.width ==> cursor == x + 6 * i,
                0 <= cursor < 0x2_0000_0006,
                cursor >= self.width <==> x + 6 * i >= self.width,
                self@ == old(self)@.text(x as int, y as int, text@, i as int, color@),
                self@.well_formed(),
                self.width == old(self).width,
                self.height == old(self).height,
            decreases text@.len() - i,
        {
            if cursor < self.width as i64 {
                self.draw_char(cursor, y, text[i], color);
                cursor = cursor + 6;
            }
            i = i + 1;
        }
    }

    /// Draws a label.
    fn draw_label(&mut self, x: i64, y: i64, label: &str, color: [u8; 3])
        requires
            old(self)@.well_formed(),
            0 <= x < old(self).width,
            0 <= y < old(self).height,
        ensures
            final(self)@ == old(self)@.label(x as int, y as int, label@, color@),
            final(self)@.well_formed(),
            final(self).width == old(self).width,
            final(self).height == old(self).height,
    {
        let text: Vec<char> = chars_of(trim(label).as_str());
        let length: usize = text.len();
        if length == 0 {
            return;
        }
        let room: i64 = self.width as i64 - x;
        let box_width: i64 = if length as u64 >= room as u64 {
            room
        } else if length as i64 * 6 + 6 < room {
            length as i64 * 6 + 6
        } else {
            room
        };
        let box_y: i64 = if y >= 13 {
            y - 13
        } else {
            y
        };
        self.fill_rect_alpha(x, box_y, x + box_width, box_y + 13, color, 220);
        let white: [u8; 3] = [255, 255, 255];
        assert(white@ =~= seq![255u8, 255, 255]);
        self.draw_text(x + 3, box_y + 3, &text, white);
    }

    /// Draws the outline and the label of a block.
    fn draw_block(&mut self, page_width: F32, page_height: F32, block: &LayoutBlock)
        requires
            old(self)@.well_formed(),
        ensures
            final(self)@ == old(self)@.block(page_width, page_height, *block),
            final(self)@.well_formed(),
            final(self).width == old(self).width,
            final(self).height == old(self).height,
    {
        let color: [u8; 3] = label_color(block.label.as_str());
        let scale_x: F32 = F32::from_u32(self.width).div(page_width);
        let scale_y: F32 = F32::from_u32(self.height).div(page_height);
        let x0: i64 = clamp_coordinate(block.x.mul(scale_x).floor_i32(), self.width);
        let y0: i64 = clamp_coordinate(block.y.mul(scale_y).floor_i32(), self.height);
        let x1: i64 = clamp_coordinate(
            block.x.add(block.width).mul(scale_x).ceil_i32(),
            self.width,
        );
        let y1: i64 = clamp_coordinate(
            block.y.add(block.height).mul(scale_y).ceil_i32(),
            self.height,
        );
        if x1 <= x0 || y1 <= y0 {
            return;
        }
        self.draw_rect_outline(x0, y0, x1, y1, color);
        self.draw_label(x0, y0, block.label.as_str(), color);
    }
}

/// The error of the `image` crate. It is carried from the encoder to `png_result`.
#[verifier::external_type_specification]
#[verifier::external_body]
pub struct ExImageError(image::ImageError);

/// The PNG file that `image::codecs::png::PngEncoder` writes for pixels of four bytes each.
pub uninterp spec fn png_encoding(rgba: Seq<u8>, width: u32, height: u32) -> Seq<u8>;

/// The bytes that every PNG file starts with.
pub open spec fn png_signature() -> Seq<u8> {
    seq![137, 80, 78, 71, 13, 10, 26, 10]
}

/// Writes pixels as a PNG file with `image::codecs::png::PngEncoder::write_image`.
///
/// Trusted: the encoder fails exactly on an image without pixels, since writing to a vector
/// does not fail; what it writes depends on the pixels and the size of the image alone; and it
/// starts with the PNG signature. The encoder panics where the number of bytes does not fit the
/// size.
#[verifier::external_body]
fn encode_png(rgba: &Vec<u8>, width: u32, height: u32) -> (r: Result<Vec<u8>, image::ImageError>)
    requires
        rgba@.len() == width * height * 4,
    ensures
        (r is Ok) == (width > 0 && height > 0),
        r is Ok ==> r->Ok_0@ == png_encoding(rgba@, width, height),
        r is Ok ==> r->Ok_0@.len() >= 8 && r->Ok_0@.take(8) == png_signature(),
{
    let mut png = Vec::new();
    let encoder = image::codecs::png::PngEncoder::new(&mut png);
    match encoder.write_image(rgba, width, height, image::ColorType::Rgba8.into()) {
        Ok(()) => Ok(png),
        Err(error) => Err(error),
    }
}

/// Why an image of a size cannot be encoded.
pub open spec fn size_problem(width: u32) -> Seq<char> {
    if width == 0 {
        "Zero width not allowed"@
    } else {
        "Zero height not allowed"@
    }
}

/// What encoding an image of a width gave, with the library's error.
pub fn png_result(encoded: Result<Vec<u8>, image::ImageError>, width: u32) -> (r: Result<
    Vec<u8>,
    LiteParseError,
>)
    ensures
        match encoded {
            Ok(png) => r == Ok::<Vec<u8>, LiteParseError>(png),
            Err(_) => r matches Err(LiteParseError::Image(text)) && text@ == size_problem(width),
        },
{
    match encoded {
        Ok(png) => Ok(png),
        Err(_) => if width == 0 {
            Err(LiteParseError::Image("Zero width not allowed".to_owned()))
        } else {
            Err(LiteParseError::Image("Zero height not allowed".to_owned()))
        },
    }
}

/// What is said of a buffer of the wrong length.
pub open spec fn length_problem(got: nat, expected: nat) -> Seq<char> {
    "invalid RGBA buffer length: got "@ + crate::text::decimal(got) + ", expected "@
        + crate::text::decimal(expected)
}

/// Says that a buffer has the wrong length.
fn describe_length(got: usize, expected: usize) -> (r: String)
    ensures
        r@ == length_problem(got as nat, expected as nat),
{
    let mut text: String = "invalid RGBA buffer length: got ".to_owned();
    text.append(to_decimal(got as u64).as_str());
    text.append(", expected ");
    text.append(to_decimal(expected as u64).as_str());
    text
}

/// The pixels of a page screenshot with the blocks of the page.
pub open spec fn annotated(
    rgba: Seq<u8>,
    width: u32,
    height: u32,
    page_width: F32,
    page_height: F32,
    blocks: Seq<LayoutBlock>,
) -> Seq<u8> {
    Picture { bytes: rgba, width: width as int, height: height as int }.blocks(
        page_width,
        page_height,
        blocks,
    ).bytes
}

/// Whether a buffer of a length cannot be encoded as an image of a size: it has the wrong length,
/// or the image has no pixels.
pub open spec fn has_problem(length: nat, width: u32, height: u32) -> bool {
    length != width * height * 4 || width == 0 || height == 0
}

/// Whether an error says why a buffer cannot be encoded as an image of a size.
pub open spec fn is_problem(error: LiteParseError, length: nat, width: u32, height: u32) -> bool {
    if length != width * height * 4 {
        error matches LiteParseError::Other(text) && text@ == length_problem(
            length,
            (width * height * 4) as nat,
        )
    } else {
        error matches LiteParseError::Image(text) && text@ == size_problem(width)
    }
}

/// Draws the blocks of a page onto its screenshot and returns the screenshot as a PNG file.
pub fn annotate_layout_png(
    rgba: &mut Vec<u8>,
    image_width: u32,
    image_height: u32,
    page_width: F32,
    page_height: F32,
    blocks: &[LayoutBlock],
) -> (r: Result<Vec<u8>, LiteParseError>)
    requires
        image_width * image_height * 4 <= usize::MAX,
        blocks@.len() == 0 || image_width <= i32::MAX && image_height <= i32::MAX,
    ensures
        final(rgba)@.len() == old(rgba)@.len(),
        final(rgba)@ == if old(rgba)@.len() == image_width * image_height * 4 {
            annotated(old(rgba)@, image_width, image_height, page_width, page_height, blocks@)
        } else {
            old(rgba)@
        },
        match r {
            Ok(png) => {
                &&& !has_problem(old(rgba)@.len(), image_width, image_height)
                &&& png@ == png_encoding(final(rgba)@, image_width, image_height)
                &&& png@.len() >= 8 && png@.take(8) == png_signature()
            },
            Err(error) => {
                &&& has_problem(old(rgba)@.len(), image_width, image_height)
                &&& is_problem(error, old(rgba)@.len(), image_width, image_height)
            },
        },
{
    proof {
        assert(image_width * image_height <= usize::MAX) by (nonlinear_arith)
            requires
                image_width * image_height * 4 <= usize::MAX,
                0 <= image_width,
                0 <= image_height,
        ;
        assert(image_width * image_height >= 0) by (nonlinear_arith)
            requires
                0 <= image_width,
                0 <= image_height,
        ;
    }
    let expected: usize = image_width as usize * image_height as usize * 4;
    if rgba.len() != expected {
        return Err(LiteParseError::Other(describe_length(rgba.len(), expected)));
    }
    let mut canvas: Canvas = Canvas {
        rgba: Vec::new(),
        width: image_width,
        height: image_height,
    };
    std::mem::swap(&mut canvas.rgba, rgba);
    let ghost picture = canvas@;
    let zero: F32 = F32::from_bits(0);
    if page_width.gt(zero) && page_height.gt(zero) {
        let mut i: usize = 0;
        while i < blocks.len()
            invariant
                i <= blocks@.len(),
                canvas@ == picture.blocks(page_width, page_height, blocks@.take(i as int)),
                canvas@.well_formed(),
                canvas.width == image_width,
                canvas.height == image_height,
                (F32 { bits: 0 }).less(page_width),
                (F32 { bits: 0 }).less(page_height),
            decreases blocks@.len() - i,
        {
            assert(blocks@.take(i + 1).drop_last() =~= blocks@.take(i as int));
            canvas.draw_block(page_width, page_height, slice_index_get(blocks, i));
            i = i + 1;
        }
        assert(blocks@.take(i as int) =~= blocks@);
    }
    let encoded: Result<Vec<u8>, image::ImageError> = encode_png(
        &canvas.rgba,
        image_width,
        image_height,
    );
    std::mem::swap(&mut canvas.rgba, rgba);
    png_result(encoded, image_width)
}

impl Picture {
    /// The bytes of a pixel.
    pub open spec fn pixel(self, x: int, y: int) -> Seq<u8> {
        let i = self.offset(x, y);
        seq![self.bytes[i], self.bytes[i + 1], self.bytes[i + 2], self.bytes[i + 3]]
    }

    /// Whether a pixel has a color and hides what is below it.
    pub open spec fn is_colored(self, x: int, y: int, c: Seq<u8>) -> bool {
        self.pixel(x, y) == seq![c[0], c[1], c[2], 255]
    }

    /// Whether both are pictures of the same size.
    spec fn sized_as(self, other: Picture) -> bool {
        self.well_formed() && self.width == other.width && self.height == other.height
    }
}

/// Replacing a pixel leaves the others alone.
proof fn lemma_with_pixel(
    p: Picture,
    x: int,
    y: int,
    r: u8,
    g: u8,
    b: u8,
    alpha: u8,
    u: int,
    v: int,
)
    requires
        p.well_formed(),
        p.has(u, v),
    ensures
        p.with_pixel(x, y, r, g, b, alpha).sized_as(p),
        (x, y) != (u, v) ==> p.with_pixel(x, y, r, g, b, alpha).pixel(u, v) == p.pixel(u, v),
        (x, y) == (u, v) ==> p.with_pixel(x, y, r, g, b, alpha).pixel(u, v) == seq![r, g, b, alpha],
{
    let q = p.with_pixel(x, y, r, g, b, alpha);
    lemma_offset(p, u, v);
    if p.has(x, y) {
        lemma_offset(p, x, y);
        let w = p.width;
        if y < v {
            assert(y * w + x < v * w + u) by (nonlinear_arith)
                requires
                    y + 1 <= v,
                    0 <= x < w,
                    0 <= u,
            ;
        } else if v < y {
            assert(v * w + u < y * w + x) by (nonlinear_arith)
                requires
                    v + 1 <= y,
                    0 <= u < w,
                    0 <= x,
            ;
        }
        assert(q.bytes.len() == p.bytes.len());
    }
    assert((x, y) != (u, v) ==> q.pixel(u, v) =~= p.pixel(u, v));
    assert((x, y) == (u, v) ==> q.pixel(u, v) =~= seq![r, g, b, alpha]);
}

proof fn lemma_set_color(p: Picture, x: int, y: int, c: Seq<u8>, u: int, v: int)
    requires
        p.well_formed(),
        p.has(u, v),
    ensures
        p.set(x, y, c).sized_as(p),
        p.is_colored(u, v, c) || (x, y) == (u, v) ==> p.set(x, y, c).is_colored(u, v, c),
{
    lemma_with_pixel(p, x, y, c[0], c[1], c[2], 255, u, v);
}

proof fn lemma_hline_color(p: Picture, x0: int, x1: int, y: int, c: Seq<u8>, u: int, v: int)
    requires
        p.well_formed(),
        p.has(u, v),
    ensures
        p.hline(x0, x1, y, c).sized_as(p),
        p.is_colored(u, v, c) || (x0 <= u <= x1 && v == y) ==> p.hline(x0, x1, y, c).is_colored(
            u,
            v,
            c,
        ),
    decreases x1 - x0 + 1,
{
    if x0 <= x1 {
        lemma_hline_color(p, x0, x1 - 1, y, c, u, v);
        lemma_set_color(p.hline(x0, x1 - 1, y, c), x1, y, c, u, v);
    }
}

proof fn lemma_vline_color(p: Picture, x: int, y0: int, y1: int, c: Seq<u8>, u: int, v: int)
    requires
        p.well_formed(),
        p.has(u, v),
    ensures
        p.vline(x, y0, y1, c).sized_as(p),
        p.is_colored(u, v, c) || (y0 <= v <= y1 && u == x) ==> p.vline(x, y0, y1, c).is_colored(
            u,
            v,
            c,
        ),
    decreases y1 - y0 + 1,
{
    if y0 <= y1 {
        lemma_vline_color(p, x, y0, y1 - 1, c, u, v);
        lemma_set_color(p.vline(x, y0, y1 - 1, c), x, y1, c, u, v);
    }
}

proof fn lemma_frame_color(
    p: Picture,
    x0: int,
    y0: int,
    x1: int,
    y1: int,
    inset: int,
    c: Seq<u8>,
    u: int,
    v: int,
)
    requires
        p.well_formed(),
        p.has(u, v),
    ensures
        p.frame(x0, y0, x1, y1, inset, c).sized_as(p),
        p.is_colored(u, v, c) ==> p.frame(x0, y0, x1, y1, inset, c).is_colored(u, v, c),
        x0 <= u <= x1 && (v == y0 + inset || v == y1 - inset) ==> p.frame(
            x0,
            y0,
            x1,
            y1,
            inset,
            c,
        ).is_colored(u, v, c),
        y0 <= v <= y1 && (u == x0 + inset || u == x1 - inset) ==> p.frame(
            x0,
            y0,
            x1,
            y1,
            inset,
            c,
        ).is_colored(u, v, c),
{
    let p1 = p.hline(x0, x1, y0 + inset, c);
    let p2 = p1.hline(x0, x1, y1 - inset, c);
    let p3 = p2.vline(x0 + inset, y0, y1, c);
    lemma_hline_color(p, x0, x1, y0 + inset, c, u, v);
    lemma_hline_color(p1, x0, x1, y1 - inset, c, u, v);
    lemma_vline_color(p2, x0 + inset, y0, y1, c, u, v);
    lemma_vline_color(p3, x1 - inset, y0, y1, c, u, v);
}

proof fn lemma_blend_color(p: Picture, x: int, y: int, c: Seq<u8>, alpha: u8, u: int, v: int)
    requires
        p.well_formed(),
        p.has(u, v),
    ensures
        p.blend(x, y, c, alpha).sized_as(p),
        p.is_colored(u, v, c) ==> p.blend(x, y, c, alpha).is_colored(u, v, c),
{
    let i = p.offset(x, y);
    let r = Picture::mixed(p.bytes[i], c[0], alpha);
    let g = Picture::mixed(p.bytes[i + 1], c[1], alpha);
    let b = Picture::mixed(p.bytes[i + 2], c[2], alpha);
    lemma_with_pixel(p, x, y, r, g, b, 255, u, v);
    if (x, y) == (u, v) && p.is_colored(u, v, c) {
        assert(p.pixel(u, v)[0] == c[0] && p.pixel(u, v)[1] == c[1] && p.pixel(u, v)[2] == c[2]);
        lemma_mixed_same(c[0], alpha);
        lemma_mixed_same(c[1], alpha);
        lemma_mixed_same(c[2], alpha);
    }
}

/// A byte mixed with itself is that byte.
proof fn lemma_mixed_same(v: u8, alpha: u8)
    ensures
        Picture::mixed(v, v, alpha) == v,
{
    assert(v * alpha + v * (255 - alpha) == 255 * v) by (nonlinear_arith);
}

proof fn lemma_blend_row_color(
    p: Picture,
    x0: int,
    x1: int,
    y: int,
    c: Seq<u8>,
    alpha: u8,
    u: int,
    v: int,
)
    requires
        p.well_formed(),
        p.has(u, v),
    ensures
        p.blend_row(x0, x1, y, c, alpha).sized_as(p),
        p.is_colored(u, v, c) ==> p.blend_row(x0, x1, y, c, alpha).is_colored(u, v, c),
    decreases x1 - x0,
{
    if x0 < x1 {
        lemma_blend_row_color(p, x0, x1 - 1, y, c, alpha, u, v);
        lemma_blend_color(p.blend_row(x0, x1 - 1, y, c, alpha), x1 - 1, y, c, alpha, u, v);
    }
}

proof fn lemma_fill_color(
    p: Picture,
    x0: int,
    y0: int,
    x1: int,
    y1: int,
    c: Seq<u8>,
    alpha: u8,
    u: int,
    v: int,
)
    requires
        p.well_formed(),
        p.has(u, v),
    ensures
        p.fill(x0, y0, x1, y1, c, alpha).sized_as(p),
        p.is_colored(u, v, c) ==> p.fill(x0, y0, x1, y1, c, alpha).is_colored(u, v, c),
    decreases y1 - y0,
{
    if y0 < y1 {
        lemma_fill_color(p, x0, y0, x1, y1 - 1, c, alpha, u, v);
        lemma_blend_row_color(
            p.fill(x0, y0, x1, y1 - 1, c, alpha),
            x0,
            x1,
            y1 - 1,
            c,
            alpha,
            u,
            v,
        );
    }
}

proof fn lemma_glyph_row_right(
    p: Picture,
    x: int,
    y: int,
    ch: char,
    row: int,
    n: int,
    c: Seq<u8>,
    u: int,
    v: int,
)
    requires
        p.well_formed(),
        p.has(u, v),
        u < x,
    ensures
        p.glyph_row(x, y, ch, row, n, c).sized_as(p),
        p.glyph_row(x, y, ch, row, n, c).pixel(u, v) == p.pixel(u, v),
    decreases n,
{
    if n > 0 {
        lemma_glyph_row_right(p, x, y, ch, row, n - 1, c, u, v);
        lemma_with_pixel(
            p.glyph_row(x, y, ch, row, n - 1, c),
            x + n - 1,
            y + row,
            c[0],
            c[1],
            c[2],
            255,
            u,
            v,
        );
    }
}

proof fn lemma_glyph_rows_right(
    p: Picture,
    x: int,
    y: int,
    ch: char,
    n: int,
    c: Seq<u8>,
    u: int,
    v: int,
)
    requires
        p.well_formed(),
        p.has(u, v),
        u < x,
    ensures
        p.glyph_rows(x, y, ch, n, c).sized_as(p),
        p.glyph_rows(x, y, ch, n, c).pixel(u, v) == p.pixel(u, v),
    decreases n,
{
    if n > 0 {
        lemma_glyph_rows_right(p, x, y, ch, n - 1, c, u, v);
        lemma_glyph_row_right(p.glyph_rows(x, y, ch, n - 1, c), x, y, ch, n - 1, 5, c, u, v);
    }
}

proof fn lemma_text_right(
    p: Picture,
    x: int,
    y: int,
    chars: Seq<char>,
    n: int,
    c: Seq<u8>,
    u: int,
    v: int,
)
    requires
        p.well_formed(),
        p.has(u, v),
        u < x,
    ensures
        p.text(x, y, chars, n, c).sized_as(p),
        p.text(x, y, chars, n, c).pixel(u, v) == p.pixel(u, v),
    decreases n,
{
    if n > 0 {
        lemma_text_right(p, x, y, chars, n - 1, c, u, v);
        lemma_glyph_rows_right(
            p.text(x, y, chars, n - 1, c),
            x + 6 * (n - 1),
            y,
            chars[n - 1],
            7,
            c,
            u,
            v,
        );
    }
}

/// A block with pixels has its color at its left edge, from its top left corner down to its
/// bottom left one: its label neither hides nor dims it.
pub proof fn block_edges_are_colored(
    p: Picture,
    page_width: F32,
    page_height: F32,
    block: LayoutBlock,
    y: int,
)
    requires
        p.well_formed(),
        ({
            let (x0, y0, x1, y1) = p.block_box(page_width, page_height, block);
            x0 < x1 && y0 <= y <= y1 && y0 < y1
        }),
    ensures
        p.block(page_width, page_height, block).is_colored(
            p.block_box(page_width, page_height, block).0,
            y,
            color_of(block.label@),
        ),
{
    let (x0, y0, x1, y1) = p.block_box(page_width, page_height, block);
    let c = color_of(block.label@);
    assert(p.has(x0, y));
    let framed = p.frame(x0, y0, x1, y1, 0, c);
    lemma_frame_color(p, x0, y0, x1, y1, 0, c, x0, y);
    let outlined = framed.frame(x0, y0, x1, y1, 1, c);
    lemma_frame_color(framed, x0, y0, x1, y1, 1, c, x0, y);
    let chars = crate::text::trimmed(block.label@);
    let wide = chars.len() as int * 6 + 6;
    let box_width = if wide < outlined.width - x0 {
        wide
    } else {
        outlined.width - x0
    };
    let box_y = if y0 >= 13 {
        y0 - 13
    } else {
        y0
    };
    lemma_fill_color(outlined, x0, box_y, x0 + box_width, box_y + 13, c, 220, x0, y);
    let filled = outlined.fill(x0, box_y, x0 + box_width, box_y + 13, c, 220);
    lemma_text_right(
        filled,
        x0 + 3,
        box_y + 3,
        chars,
        chars.len() as int,
        seq![255, 255, 255],
        x0,
        y,
    );
}

proof fn lemma_hline_exact(p: Picture, x0: int, x1: int, y: int, c: Seq<u8>, u: int, v: int)
    requires
        p.well_formed(),
        p.has(u, v),
    ensures
        p.hline(x0, x1, y, c).sized_as(p),
        p.hline(x0, x1, y, c).pixel(u, v) == if x0 <= u <= x1 && v == y {
            seq![c[0], c[1], c[2], 255]
        } else {
            p.pixel(u, v)
        },
    decreases x1 - x0 + 1,
{
    if x0 <= x1 {
        lemma_hline_exact(p, x0, x1 - 1, y, c, u, v);
        lemma_with_pixel(p.hline(x0, x1 - 1, y, c), x1, y, c[0], c[1], c[2], 255, u, v);
    }
}

proof fn lemma_vline_exact(p: Picture, x: int, y0: int, y1: int, c: Seq<u8>, u: int, v: int)
    requires
        p.well_formed(),
        p.has(u, v),
    ensures
        p.vline(x, y0, y1, c).sized_as(p),
        p.vline(x, y0, y1, c).pixel(u, v) == if y0 <= v <= y1 && u == x {
            seq![c[0], c[1], c[2], 255]
        } else {
            p.pixel(u, v)
        },
    decreases y1 - y0 + 1,
{
    if y0 <= y1 {
        lemma_vline_exact(p, x, y0, y1 - 1, c, u, v);
        lemma_with_pixel(p.vline(x, y0, y1 - 1, c), x, y1, c[0], c[1], c[2], 255, u, v);
    }
}

proof fn lemma_frame_exact(
    p: Picture,
    x0: int,
    y0: int,
    x1: int,
    y1: int,
    inset: int,
    c: Seq<u8>,
    u: int,
    v: int,
)
    requires
        p.well_formed(),
        p.has(u, v),
    ensures
        p.frame(x0, y0, x1, y1, inset, c).sized_as(p),
        p.frame(x0, y0, x1, y1, inset, c).pixel(u, v) == if (x0 <= u <= x1 && (v == y0 + inset || v
            == y1 - inset)) || (y0 <= v <= y1 && (u == x0 + inset || u == x1 - inset)) {
            seq![c[0], c[1], c[2], 255]
        } else {
            p.pixel(u, v)
        },
{
    let a = p.hline(x0, x1, y0 + inset, c);
    lemma_hline_exact(p, x0, x1, y0 + inset, c, u, v);
    let b = a.hline(x0, x1, y1 - inset, c);
    lemma_hline_exact(a, x0, x1, y1 - inset, c, u, v);
    let d = b.vline(x0 + inset, y0, y1, c);
    lemma_vline_exact(b, x0 + inset, y0, y1, c, u, v);
    lemma_vline_exact(d, x1 - inset, y0, y1, c, u, v);
}

/// The outline of a rectangle: the pixels of the rectangle that are at most one pixel from one of
/// its four edges have the color, and all others are as before.
pub proof fn the_outline_is_two_pixels_wide(
    p: Picture,
    x0: int,
    y0: int,
    x1: int,
    y1: int,
    c: Seq<u8>,
    u: int,
    v: int,
)
    requires
        p.well_formed(),
        p.has(u, v),
        x0 < x1,
        y0 < y1,
    ensures
        p.outline(x0, y0, x1, y1, c).pixel(u, v) == if x0 <= u <= x1 && y0 <= v <= y1 && (u <= x0 + 1
            || u >= x1 - 1 || v <= y0 + 1 || v >= y1 - 1) {
            seq![c[0], c[1], c[2], 255]
        } else {
            p.pixel(u, v)
        },
        p.outline(x0, y0, x1, y1, c).well_formed(),
        p.outline(x0, y0, x1, y1, c).width == p.width,
        p.outline(x0, y0, x1, y1, c).height == p.height,
{
    lemma_frame_exact(p, x0, y0, x1, y1, 0, c, u, v);
    lemma_frame_exact(p.frame(x0, y0, x1, y1, 0, c), x0, y0, x1, y1, 1, c, u, v);
}

/// What a pixel becomes with a color laid over it.
pub open spec fn tinted(pixel: Seq<u8>, c: Seq<u8>, alpha: u8) -> Seq<u8> {
    seq![
        ((c[0] * alpha + pixel[0] * (255 - alpha)) / 255) as u8,
        ((c[1] * alpha + pixel[1] * (255 - alpha)) / 255) as u8,
        ((c[2] * alpha + pixel[2] * (255 - alpha)) / 255) as u8,
        255,
    ]
}

proof fn lemma_blend_row_exact(
    p: Picture,
    x0: int,
    x1: int,
    y: int,
    c: Seq<u8>,
    alpha: u8,
    u: int,
    v: int,
)
    requires
        p.well_formed(),
        p.has(u, v),
    ensures
        p.blend_row(x0, x1, y, c, alpha).sized_as(p),
        p.blend_row(x0, x1, y, c, alpha).pixel(u, v) == if x0 <= u < x1 && v == y {
            tinted(p.pixel(u, v), c, alpha)
        } else {
            p.pixel(u, v)
        },
    decreases x1 - x0,
{
    if x0 < x1 {
        lemma_blend_row_exact(p, x0, x1 - 1, y, c, alpha, u, v);
        let q = p.blend_row(x0, x1 - 1, y, c, alpha);
        let i = q.offset(x1 - 1, y);
        lemma_with_pixel(
            q,
            x1 - 1,
            y,
            Picture::mixed(q.bytes[i], c[0], alpha),
            Picture::mixed(q.bytes[i + 1], c[1], alpha),
            Picture::mixed(q.bytes[i + 2], c[2], alpha),
            255,
            u,
            v,
        );
    }
}

/// Laying a color over a rectangle mixes it with each pixel of the rectangle, once, and leaves all
/// other pixels.
pub proof fn filling_tints_the_rectangle(
    p: Picture,
    x0: int,
    y0: int,
    x1: int,
    y1: int,
    c: Seq<u8>,
    alpha: u8,
    u: int,
    v: int,
)
    requires
        p.well_formed(),
        p.has(u, v),
    ensures
        p.fill(x0, y0, x1, y1, c, alpha).well_formed(),
        p.fill(x0, y0, x1, y1, c, alpha).width == p.width,
        p.fill(x0, y0, x1, y1, c, alpha).height == p.height,
        p.fill(x0, y0, x1, y1, c, alpha).pixel(u, v) == if x0 <= u < x1 && y0 <= v < y1 {
            tinted(p.pixel(u, v), c, alpha)
        } else {
            p.pixel(u, v)
        },
    decreases y1 - y0,
{
    if y0 < y1 {
        filling_tints_the_rectangle(p, x0, y0, x1, y1 - 1, c, alpha, u, v);
        lemma_blend_row_exact(p.fill(x0, y0, x1, y1 - 1, c, alpha), x0, x1, y1 - 1, c, alpha, u, v);
    }
}

proof fn lemma_glyph_row_exact(
    p: Picture,
    x: int,
    y: int,
    ch: char,
    row: int,
    n: int,
    c: Seq<u8>,
    u: int,
    v: int,
)
    requires
        p.well_formed(),
        p.has(u, v),
    ensures
        p.glyph_row(x, y, ch, row, n, c).sized_as(p),
        p.glyph_row(x, y, ch, row, n, c).pixel(u, v) == if v == y + row && 0 <= u - x < n
            && glyph_pixel(ch, row, u - x) {
            seq![c[0], c[1], c[2], 255]
        } else {
            p.pixel(u, v)
        },
    decreases n,
{
    if n > 0 {
        lemma_glyph_row_exact(p, x, y, ch, row, n - 1, c, u, v);
        let q = p.glyph_row(x, y, ch, row, n - 1, c);
        lemma_with_pixel(q, x + n - 1, y + row, c[0], c[1], c[2], 255, u, v);
    }
}

proof fn lemma_glyph_rows_exact(
    p: Picture,
    x: int,
    y: int,
    ch: char,
    n: int,
    c: Seq<u8>,
    u: int,
    v: int,
)
    requires
        p.well_formed(),
        p.has(u, v),
    ensures
        p.glyph_rows(x, y, ch, n, c).sized_as(p),
        p.glyph_rows(x, y, ch, n, c).pixel(u, v) == if 0 <= v - y < n && 0 <= u - x < 5
            && glyph_pixel(ch, v - y, u - x) {
            seq![c[0], c[1], c[2], 255]
        } else {
            p.pixel(u, v)
        },
    decreases n,
{
    if n > 0 {
        lemma_glyph_rows_exact(p, x, y, ch, n - 1, c, u, v);
        lemma_glyph_row_exact(p.glyph_rows(x, y, ch, n - 1, c), x, y, ch, n - 1, 5, c, u, v);
    }
}

/// Whether a pixel belongs to a glyph of a text whose glyphs are five pixels wide, seven high and a
/// pixel apart.
pub open spec fn is_written(x: int, y: int, chars: Seq<char>, n: int, width: int, u: int, v: int) -> bool {
    exists|i: int|
        0 <= i < n && x + 6 * i < width && 0 <= u - x - 6 * i < 5 && 0 <= v - y < 7 && glyph_pixel(
            #[trigger] chars[i],
            v - y,
            u - x - 6 * i,
        )
}

/// Writing a text colors the pixels of the glyphs of its characters, from left to right, and leaves
/// all other pixels.
pub proof fn texts_are_written_glyph_by_glyph(
    p: Picture,
    x: int,
    y: int,
    chars: Seq<char>,
    n: int,
    c: Seq<u8>,
    u: int,
    v: int,
)
    requires
        p.well_formed(),
        p.has(u, v),
    ensures
        p.text(x, y, chars, n, c).well_formed(),
        p.text(x, y, chars, n, c).width == p.width,
        p.text(x, y, chars, n, c).height == p.height,
        p.text(x, y, chars, n, c).pixel(u, v) == if is_written(x, y, chars, n, p.width, u, v) {
            seq![c[0], c[1], c[2], 255]
        } else {
            p.pixel(u, v)
        },
    decreases n,
{
    if n > 0 {
        texts_are_written_glyph_by_glyph(p, x, y, chars, n - 1, c, u, v);
        let q = p.text(x, y, chars, n - 1, c);
        let m = n - 1;
        lemma_glyph_rows_exact(q, x + 6 * m, y, chars[m], 7, c, u, v);
        let here = x + 6 * m < p.width && 0 <= u - x - 6 * m < 5 && 0 <= v - y < 7 && glyph_pixel(
            chars[m],
            v - y,
            u - x - 6 * m,
        );
        if is_written(x, y, chars, m, p.width, u, v) {
            let i = choose|i: int|
                0 <= i < m && x + 6 * i < p.width && 0 <= u - x - 6 * i < 5 && 0 <= v - y < 7
                    && glyph_pixel(#[trigger] chars[i], v - y, u - x - 6 * i);
            assert(glyph_pixel(chars[i], v - y, u - x - 6 * i));
            assert(is_written(x, y, chars, n, p.width, u, v));
        } else if here {
            assert(is_written(x, y, chars, n, p.width, u, v));
        } else if is_written(x, y, chars, n, p.width, u, v) {
            let i = choose|i: int|
                0 <= i < n && x + 6 * i < p.width && 0 <= u - x - 6 * i < 5 && 0 <= v - y < 7
                    && glyph_pixel(#[trigger] chars[i], v - y, u - x - 6 * i);
            assert(i != m);
            assert(glyph_pixel(chars[i], v - y, u - x - 6 * i));
        }
    }
}

/// A label is written in white, three pixels from the left and the top of a box that is thirteen
/// pixels high and six pixels wide for each character and six more, as far as the picture reaches,
/// tinted in its color. The box ends above the place where there is room, and starts at the place
/// else. All other pixels are as before, and a blank label changes nothing.
pub proof fn labels_are_written_on_a_box(
    p: Picture,
    x: int,
    y: int,
    label: Seq<char>,
    c: Seq<u8>,
    u: int,
    v: int,
)
    requires
        p.well_formed(),
        p.has(u, v),
        p.has(x, y),
    ensures
        ({
            let chars = crate::text::trimmed(label);
            let top = if y >= 13 { y - 13 } else { y };
            p.label(x, y, label, c).pixel(u, v) == if chars.len() == 0 {
                p.pixel(u, v)
            } else if is_written(x + 3, top + 3, chars, chars.len() as int, p.width, u, v) {
                seq![255, 255, 255, 255]
            } else if x <= u < x + 6 * chars.len() + 6 && top <= v < top + 13 {
                tinted(p.pixel(u, v), c, 220)
            } else {
                p.pixel(u, v)
            }
        }),
{
    let chars = crate::text::trimmed(label);
    let wide = chars.len() as int * 6 + 6;
    let box_width = if wide < p.width - x { wide } else { p.width - x };
    let top = if y >= 13 { y - 13 } else { y };
    if chars.len() > 0 {
        let q = p.fill(x, top, x + box_width, top + 13, c, 220);
        filling_tints_the_rectangle(p, x, top, x + box_width, top + 13, c, 220, u, v);
        texts_are_written_glyph_by_glyph(
            q,
            x + 3,
            top + 3,
            chars,
            chars.len() as int,
            seq![255, 255, 255],
            u,
            v,
        );
    }
}

/// A block is drawn as the outline of its pixels, with its label at the top left one, both in the
/// color of the label; a block without pixels is not drawn.
pub proof fn blocks_are_outlined_and_labelled(
    p: Picture,
    page_width: F32,
    page_height: F32,
    block: LayoutBlock,
    before: Seq<LayoutBlock>,
)
    requires
        (F32 { bits: 0 }).less(page_width),
        (F32 { bits: 0 }).less(page_height),
    ensures
        p.blocks(page_width, page_height, Seq::empty()) == p,
        ({
            let q = p.blocks(page_width, page_height, before);
            let (x0, y0, x1, y1) = q.block_box(page_width, page_height, block);
            let c = color_of(block.label@);
            p.blocks(page_width, page_height, before.push(block)) == if x0 < x1 && y0 < y1 {
                q.outline(x0, y0, x1, y1, c).label(x0, y0, block.label@, c)
            } else {
                q
            }
        }),
{
    assert(before.push(block).drop_last() =~= before);
}

proof fn lemma_whole_scale(length: int, page: F32, m: int, n: int)
    requires
        page.is_whole(m),
        length == n * m,
        0 < m < 2048,
        0 < n <= 16,
    ensures
        F32::from_nat(length as nat).over(page).is_whole(n),
        0 < length < 0x1_0000,
{
    assert(0 < n * m < 0x1_0000) by (nonlinear_arith)
        requires 0 < m < 2048, 0 < n <= 16;
    let (a, f) = (F32::from_nat(length as nat), F32::from_nat(n as nat));
    vstd::arithmetic::power2::lemma_pow2_pos(149);
    vstd::arithmetic::power2::lemma2_to64();
    vstd::arithmetic::power2::lemma_pow2_adds(141, 8);
    let one = vstd::arithmetic::power2::pow2(149) as int;
    let p = vstd::arithmetic::power2::pow2(141) as int;
    crate::float::bounds::small_naturals_are_exact(length as nat);
    crate::float::bounds::small_naturals_are_exact(n as nat);
    crate::float::bounds::naturals_are_not_negative(length as nat);
    crate::float::bounds::naturals_are_not_negative(n as nat);
    crate::float::exact::naturals_are_whole(n as nat);
    assert((256 * m) * p == m * one) by (nonlinear_arith)
        requires one == p * 256;
    assert(m * one > 0) by (nonlinear_arith)
        requires m > 0, one > 0;
    assert(page.units() == m * one && !page.negative());
    assert((length * one) * one == (n * one) * (m * one)) by (nonlinear_arith)
        requires length == n * m;
    crate::float::exact::quotient_bounds(a, page, f);
    let q = a.over(page);
    assert(q.finite());
    crate::float::order::comparison_compares_values(q, f);
    crate::float::order::comparison_compares_values(f, q);
}

proof fn lemma_whole_pixel(v: F32, scale: F32, k: int, n: int)
    requires
        v.is_whole(k),
        scale.is_whole(n),
        0 <= k < 2048,
        0 < n <= 16,
    ensures
        v.times(scale).as_i32(v.times(scale).floor_int()) == n * k,
        v.times(scale).as_i32(v.times(scale).ceil_int()) == n * k,
{
    assert(0 <= k * n < 0x1_0000 && k * n == n * k) by (nonlinear_arith)
        requires 0 <= k < 2048, 0 < n <= 16;
    crate::float::exact::whole_product(v, scale, k, n);
    let r = v.times(scale);
    let m = k * n;
    vstd::arithmetic::power2::lemma_pow2_pos(149);
    vstd::arithmetic::power2::lemma2_to64();
    vstd::arithmetic::power2::lemma_pow2_adds(141, 8);
    let one = vstd::arithmetic::power2::pow2(149) as int;
    let p = vstd::arithmetic::power2::pow2(141) as int;
    assert((256 * m) * p == m * one) by (nonlinear_arith)
        requires one == p * 256;
    assert(m * one >= 0) by (nonlinear_arith)
        requires m >= 0, one > 0;
    assert(r.units() == m * one);
    assert((m * one) / one == m && (m * one) % one == 0) by {
        vstd::arithmetic::div_mod::lemma_div_multiples_vanish(m, one);
        vstd::arithmetic::div_mod::lemma_mod_multiples_basic(m, one);
        assert(one * m == m * one) by (nonlinear_arith);
    }
    if r.negative() {
        assert(m == 0) by (nonlinear_arith)
            requires m * one <= 0, one > 0, m >= 0;
    }
}

/// On a picture that shows each point of a page as `n` pixels each way, the pixels of a block on
/// whole points are those of its frame, as far as the picture reaches.
pub proof fn blocks_are_drawn_where_they_lie(
    p: Picture,
    page_width: F32,
    page_height: F32,
    block: LayoutBlock,
    g: crate::types::Frame,
    width: int,
    height: int,
    n: int,
)
    requires
        page_width.is_whole(width),
        page_height.is_whole(height),
        block.area_rect().is_framed(g),
        0 < width < 2048,
        0 < height < 2048,
        0 < n <= 16,
        p.width == n * width,
        p.height == n * height,
    ensures
        p.block_box(page_width, page_height, block) == (
            crate::types::least(n * g.left, p.width - 1),
            crate::types::least(n * g.top, p.height - 1),
            crate::types::least(n * g.right, p.width - 1),
            crate::types::least(n * g.bottom, p.height - 1),
        ),
{
    let (sx, sy) = (
        F32::from_nat(p.width as nat).over(page_width),
        F32::from_nat(p.height as nat).over(page_height),
    );
    lemma_whole_scale(p.width, page_width, width, n);
    lemma_whole_scale(p.height, page_height, height, n);
    crate::types::framed_edges(block.area_rect(), g);
    lemma_whole_pixel(block.x, sx, g.left, n);
    lemma_whole_pixel(block.y, sy, g.top, n);
    lemma_whole_pixel(block.x.plus(block.width), sx, g.right, n);
    lemma_whole_pixel(block.y.plus(block.height), sy, g.bottom, n);
    assert(n * g.left >= 0 && n * g.top >= 0 && n * g.right >= 0 && n * g.bottom >= 0)
        by (nonlinear_arith)
        requires n > 0, g.left >= 0, g.top >= 0, g.right >= 0, g.bottom >= 0;
}

} // verus!
