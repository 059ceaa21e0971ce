use vstd::prelude::*;

verus! {

/// A colour of the terminal: red, green and blue, each in `0..=255`.
#[derive(Clone, Copy, Debug, PartialEq, Eq, Structural)]
pub struct Color {
    pub r: u8,
    pub g: u8,
    pub b: u8,
}

/// One cell of a screen: its background, its foreground and the character shown.
pub type Pixel = (Color, Color, char);

/// The decimal digit `d` as a character.
pub open spec fn digit_char(d: nat) -> char {
    if d == 0 {
        '0'
    } else if d == 1 {
        '1'
    } else if d == 2 {
        '2'
    } else if d == 3 {
        '3'
    } else if d == 4 {
        '4'
    } else if d == 5 {
        '5'
    } else if d == 6 {
        '6'
    } else if d == 7 {
        '7'
    } else if d == 8 {
        '8'
    } else {
        '9'
    }
}

/// The decimal numeral of `n`, without leading zeros.
pub open spec fn decimal(n: nat) -> Seq<char>
    decreases n,
{
    if n < 10 {
        seq![digit_char(n)]
    } else {
        decimal(n / 10).push(digit_char(n % 10))
    }
}

/// The escape sequence that selects `color`: `ESC [ 4 8 ; 2 ; r ; g ; b m`
/// for the background, and with `3` in place of `4` for the foreground.
pub open spec fn color_code(background: bool, color: Color) -> Seq<char> {
    seq!['\x1B', '[', if background { '4' } else { '3' }, '8', ';', '2', ';']
        + decimal(color.r as nat) + seq![';'] + decimal(color.g as nat) + seq![';'] + decimal(
        color.b as nat,
    ) + seq!['m']
}

/// The text of one cell: both colour codes, then the character between two spaces.
pub open spec fn cell_text(pixel: Pixel) -> Seq<char> {
    color_code(true, pixel.0) + color_code(false, pixel.1) + seq![' ', pixel.2, ' ']
}

/// The index of the `j`-th of `len` items when they are shown in order, or in reverse.
pub open spec fn shown(len: int, j: int, reversed: bool) -> int {
    if reversed {
        len - 1 - j
    } else {
        j
    }
}

/// The text of the first `n` cells of a row as it is shown.
pub open spec fn row_text(row: Seq<Pixel>, flip_x: bool, n: nat) -> Seq<char>
    decreases n,
{
    if n == 0 {
        Seq::empty()
    } else {
        row_text(row, flip_x, (n - 1) as nat) + cell_text(
            row[shown(row.len() as int, n - 1, flip_x)],
        )
    }
}

/// The text of the first `n` rows of a screen as it is shown, each ended by a line feed.
pub open spec fn rows_text(rows: Seq<Seq<Pixel>>, flip_x: bool, flip_y: bool, n: nat) -> Seq<char>
    decreases n,
{
    if n == 0 {
        Seq::empty()
    } else {
        let row = rows[shown(rows.len() as int, n - 1, flip_y)];
        rows_text(rows, flip_x, flip_y, (n - 1) as nat) + row_text(row, flip_x, row.len())
            + seq!['\n']
    }
}

/// The text that draws a screen: its rows, then the sequence that resets the colours.
pub open spec fn screen_text(rows: Seq<Seq<Pixel>>, flip_x: bool, flip_y: bool) -> Seq<char> {
    rows_text(rows, flip_x, flip_y, rows.len()) + seq!['\x1B', '[', '0', 'm']
}

/// The pixel `pixel` with the parts that are given replaced.
pub open spec fn painted(
    pixel: Pixel,
    background: Option<Color>,
    foreground: Option<Color>,
    sprite: Option<char>,
) -> Pixel {
    (
        match background {
            Some(bg) => bg,
            None => pixel.0,
        },
        match foreground {
            Some(fg) => fg,
            None => pixel.1,
        },
        match sprite {
            Some(c) => c,
            None => pixel.2,
        },
    )
}

/// `String::push` of the standard library, which this crate does not verify:
/// taken on trust, it appends the one character `ch` to the end of the string
/// and changes nothing before it.
pub assume_specification[ String::push ](text: &mut String, ch: char)
    ensures
        final(text)@ == old(text)@.push(ch),
;

/// The character of the decimal digit `d`.
fn digit(d: u8) -> (c: char)
    requires
        d < 10,
    ensures
        c == digit_char(d as nat),
{
    match d {
        0 => '0',
        1 => '1',
        2 => '2',
        3 => '3',
        4 => '4',
        5 => '5',
        6 => '6',
        7 => '7',
        8 => '8',
        _ => '9',
    }
}

/// Appends the decimal numeral of `n`.
fn push_decimal(text: &mut String, n: u8)
    ensures
        final(text)@ == old(text)@ + decimal(n as nat),
{
    reveal_with_fuel(decimal, 3);
    if n >= 100 {
        text.push(digit(n / 100));
    }
    if n >= 10 {
        text.push(digit((n / 10) % 10));
    }
    text.push(digit(n % 10));
    assert(text@ =~= old(text)@ + decimal(n as nat));
}

/// Stores `value` in cell `x` of row `y` of `grid`.
fn set_cell<T>(grid: &mut Vec<Vec<T>>, x: usize, y: usize, value: T)
    requires
        y < old(grid).len(),
        x < old(grid)[y as int].len(),
    ensures
        final(grid).len() == old(grid).len(),
        final(grid)[y as int]@ == old(grid)[y as int]@.update(x as int, value),
        forall|j: int| 0 <= j < old(grid).len() && j != y ==> final(grid)[j] == old(grid)[j],
    no_unwind
{
    grid[y][x] = value;
}

impl Color {
    /// The colour with the given parts.
    pub fn new(r: u8, g: u8, b: u8) -> (color: Color)
        ensures
            color == (Color { r, g, b }),
    {
        Color { r, g, b }
    }

    /// The escape sequence that selects this colour, for the background or the foreground.
    fn to_code(&self, background: bool) -> (code: String)
        ensures
            code@ == color_code(background, *self),
    {
        let mut code = String::new();
        code.push('\x1B');
        code.push('[');
        code.push(if background { '4' } else { '3' });
        code.push('8');
        code.push(';');
        code.push('2');
        code.push(';');
        push_decimal(&mut code, self.r);
        code.push(';');
        push_decimal(&mut code, self.g);
        code.push(';');
        push_decimal(&mut code, self.b);
        code.push('m');
        assert(code@ =~= color_code(background, *self));
        code
    }

    /// The escape sequence that makes this colour the background.
    pub fn to_bg_string(&self) -> (code: String)
        ensures
            code@ == color_code(true, *self),
    {
        self.to_code(true)
    }

    /// The escape sequence that makes this colour the foreground.
    pub fn to_fg_string(&self) -> (code: String)
        ensures
            code@ == color_code(false, *self),
    {
        self.to_code(false)
    }
}

/// A grid of cells, `height` rows of `width` cells, drawn as text for a terminal.
pub struct Screen {
    width: usize,
    height: usize,
    foreground: Vec<Vec<Color>>,
    background: Vec<Vec<Color>>,
    sprites: Vec<Vec<char>>,
}

impl View for Screen {
    type V = Seq<Seq<Pixel>>;

    closed spec fn view(&self) -> Seq<Seq<Pixel>> {
        Seq::new(
            self.height as nat,
            |y: int|
                Seq::new(
                    self.width as nat,
                    |x: int| (self.background[y][x], self.foreground[y][x], self.sprites[y][x]),
                ),
        )
    }
}

impl Screen {
    /// The three grids have `height` rows of `width` cells each.
    #[verifier::type_invariant]
    spec fn grids_match(&self) -> bool {
        &&& self.foreground.len() == self.height
        &&& self.background.len() == self.height
        &&& self.sprites.len() == self.height
        &&& forall|y: int|
            0 <= y < self.height ==> (#[trigger] self.foreground[y]).len() == self.width
        &&& forall|y: int|
            0 <= y < self.height ==> (#[trigger] self.background[y]).len() == self.width
        &&& forall|y: int| 0 <= y < self.height ==> (#[trigger] self.sprites[y]).len() == self.width
    }

    /// The width of the screen, in cells.
    pub closed spec fn cols(&self) -> nat {
        self.width as nat
    }

    /// The height of the screen, in rows.
    pub closed spec fn rows(&self) -> nat {
        self.height as nat
    }

    /// A screen has `rows()` rows of `cols()` cells.
    pub proof fn lemma_shape(&self)
        ensures
            self@.len() == self.rows(),
            forall|y: int| 0 <= y < self.rows() ==> (#[trigger] self@[y]).len() == self.cols(),
    {
    }

    /// A screen of spaces, white on black.
    pub fn new(width: usize, height: usize) -> (screen: Screen)
        ensures
            screen.cols() == width,
            screen.rows() == height,
            screen@ == Seq::new(
                height as nat,
                |y: int|
                    Seq::new(
                        width as nat,
                        |x: int|
                            (Color { r: 0, g: 0, b: 0 }, Color { r: 255, g: 255, b: 255 }, ' '),
                    ),
            ),
    {
        let screen = Screen {
            width,
            height,
            background: vec![vec![Color::new(0, 0, 0); width]; height],
            foreground: vec![vec![Color::new(255, 255, 255); width]; height],
            sprites: vec![vec![' '; width]; height],
        };
        assert forall|x: int, y: int| 0 <= x < width && 0 <= y < height implies screen@[y][x] == (
            Color { r: 0, g: 0, b: 0 },
            Color { r: 255, g: 255, b: 255 },
            ' ',
        ) by {
            assert(screen.background[y][x] == Color { r: 0, g: 0, b: 0 });
            assert(screen.foreground[y][x] == Color { r: 255, g: 255, b: 255 });
            assert(screen.sprites[y][x] == ' ');
        }
        assert(screen@ =~~= Seq::new(
            height as nat,
            |y: int|
                Seq::new(
                    width as nat,
                    |x: int| (Color { r: 0, g: 0, b: 0 }, Color { r: 255, g: 255, b: 255 }, ' '),
                ),
        ));
        screen
    }

    /// The width of the screen, in cells.
    pub fn width(&self) -> (width: usize)
        ensures
            width == self.cols(),
    {
        self.width
    }

    /// The height of the screen, in rows.
    pub fn height(&self) -> (height: usize)
        ensures
            height == self.rows(),
    {
        self.height
    }

    /// The cell in column `x` of row `y`: background, foreground and character.
    pub fn get_pixel(&self, x: usize, y: usize) -> (pixel: (Color, Color, char))
        requires
            x < self.cols(),
            y < self.rows(),
        ensures
            pixel == self@[y as int][x as int],
    {
        proof {
            use_type_invariant(self);
        }
        (self.background[y][x], self.foreground[y][x], self.sprites[y][x])
    }
    /// Replaces the parts that are given of the cell in column `x` of row `y`.
    pub fn set_pixel(
        &mut self,
        x: usize,
        y: usize,
        background: Option<Color>,
        foreground: Option<Color>,
        sprite: Option<char>,
    )
        requires
            x < old(self).cols(),
            y < old(self).rows(),
        ensures
            final(self).cols() == old(self).cols(),
            final(self).rows() == old(self).rows(),
            final(self)@ == old(self)@.update(
                y as int,
                old(self)@[y as int].update(
                    x as int,
                    painted(old(self)@[y as int][x as int], background, foreground, sprite),
                ),
            ),
    {
        proof {
            use_type_invariant(&*self);
        }
        if let Some(bg) = background {
            set_cell(&mut self.background, x, y, bg);
        }
        if let Some(fg) = foreground {
            set_cell(&mut self.foreground, x, y, fg);
        }
        if let Some(c) = sprite {
            set_cell(&mut self.sprites, x, y, c);
        }
        assert(self@ =~~= old(self)@.update(
            y as int,
            old(self)@[y as int].update(
                x as int,
                painted(old(self)@[y as int][x as int], background, foreground, sprite),
            ),
        ));
    }
    /// Paints every cell with the parts that are given.
    pub fn clear(
        &mut self,
        background: Option<Color>,
        foreground: Option<Color>,
        sprite: Option<char>,
    )
        ensures
            final(self).cols() == old(self).cols(),
            final(self).rows() == old(self).rows(),
            final(self)@ == Seq::new(
                old(self).rows(),
                |y: int|
                    Seq::new(
                        old(self).cols(),
                        |x: int| painted(old(self)@[y][x], background, foreground, sprite),
                    ),
            ),
    {
        let mut y: usize = 0;
        while y < self.height
            invariant
                y <= self.rows(),
                self.cols() == old(self).cols(),
                self.rows() == old(self).rows(),
                forall|a: int, b: int|
                    0 <= a < self.cols() && 0 <= b < self.rows() ==> #[trigger] self@[b][a] == if b
                        < y {
                        painted(old(self)@[b][a], background, foreground, sprite)
                    } else {
                        old(self)@[b][a]
                    },
            decreases self.rows() - y,
        {
            let mut x: usize = 0;
            while x < self.width
                invariant
                    y < self.rows(),
                    x <= self.cols(),
                    self.cols() == old(self).cols(),
                    self.rows() == old(self).rows(),
                    forall|a: int, b: int|
                        0 <= a < self.cols() && 0 <= b < self.rows() ==> #[trigger] self@[b][a]
                            == if b < y || (b == y && a < x) {
                            painted(old(self)@[b][a], background, foreground, sprite)
                        } else {
                            old(self)@[b][a]
                        },
                decreases self.cols() - x,
            {
                self.set_pixel(x, y, background, foreground, sprite);
                x += 1;
            }
            y += 1;
        }
        assert(self@ =~~= Seq::new(
            old(self).rows(),
            |y: int|
                Seq::new(
                    old(self).cols(),
                    |x: int| painted(old(self)@[y][x], background, foreground, sprite),
                ),
        ));
    }

    /// The text that draws the screen on a terminal, row by row. With `flip_x`
    /// each row is drawn from its last cell to its first, and with `flip_y`
    /// the rows are drawn from the last to the first.
    pub fn render(&self, flip_x: bool, flip_y: bool) -> (text: String)
        ensures
            text@ == screen_text(self@, flip_x, flip_y),
    {
        proof {
            use_type_invariant(self);
        }
        let mut result = String::new();
        let mut j: usize = 0;
        while j < self.height
            invariant
                j <= self.rows(),
                self.grids_match(),
                result@ == rows_text(self@, flip_x, flip_y, j as nat),
            decreases self.rows() - j,
        {
            let y: usize = if flip_y {
                self.height - 1 - j
            } else {
                j
            };
            let ghost above = result@;
            let mut i: usize = 0;
            while i < self.width
                invariant
                    i <= self.cols(),
                    y < self.rows(),
                    self.grids_match(),
                    result@ == above + row_text(self@[y as int], flip_x, i as nat),
                decreases self.cols() - i,
            {
                let x: usize = if flip_x {
                    self.width - 1 - i
                } else {
                    i
                };
                let ghost before = result@;
                let bg = self.background[y][x].to_bg_string();
                let fg = self.foreground[y][x].to_fg_string();
                let c = self.sprites[y][x];
                result.append(bg.as_str());
                result.append(fg.as_str());
                result.push(' ');
                result.push(c);
                result.push(' ');
                assert(result@ =~= before + cell_text(self@[y as int][x as int]));
                assert(result@ =~= above + row_text(self@[y as int], flip_x, (i + 1) as nat));
                i += 1;
            }
            result.push('\n');
            assert(result@ =~= rows_text(self@, flip_x, flip_y, (j + 1) as nat));
            j += 1;
        }
        let ghost rows = result@;
        result.push('\x1B');
        result.push('[');
        result.push('0');
        result.push('m');
        assert(result@ =~= rows + seq!['\x1B', '[', '0', 'm']);
        result
    }
}

} // verus!
