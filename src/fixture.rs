use vstd::prelude::*;
use vstd::string::StrSliceExecFns;
use vstd::string::StringExecFns;
use crate::api::{ApiBoard, ApiCoords, ApiGame, ApiGameState, ApiSnake};

verus! {

/// Every cell of `cells` lies on a `w` by `h` board.
pub open spec fn cells_within(cells: Seq<ApiCoords>, w: int, h: int) -> bool {
    forall|k: int| 0 <= k < cells.len() ==> (#[trigger] cells[k]).x < w && cells[k].y < h
}

/// Every cell of every snake and every food item of `g` lies on its board.
pub open spec fn state_cells_within(g: ApiGameState) -> bool {
    &&& cells_within(g.you.body@, g.board.width as int, g.board.height as int)
    &&& cells_within(g.board.food@, g.board.width as int, g.board.height as int)
    &&& forall|i: int| 0 <= i < g.board.snakes@.len()
        ==> cells_within((#[trigger] g.board.snakes@[i]).body@, g.board.width as int, g.board.height as int)
}

pub open spec fn is_space(c: char) -> bool {
    c == ' ' || c == '\t' || c == '\r' || c == '\n'
}

pub open spec fn is_letter(c: char) -> bool {
    ('a' <= c && c <= 'z') || ('A' <= c && c <= 'Z')
}

pub open spec fn is_digit(c: char) -> bool {
    '0' <= c && c <= '9'
}

/// A snake being read: its name and the cells seen so far, by segment index.
struct Drawn {
    name: String,
    body: Vec<ApiCoords>,
}

/// The state of a reading: sizes, food, snakes and health lines seen so far.
struct Reading {
    width: u32,
    height: u32,
    food: Vec<ApiCoords>,
    you: Vec<ApiCoords>,
    snakes: Vec<Drawn>,
    healths: Vec<(String, u32)>,
}

impl Reading {
    /// Every cell read so far lies on a `w` by `h` board.
    spec fn within(&self, w: int, h: int) -> bool {
        &&& cells_within(self.food@, w, h)
        &&& cells_within(self.you@, w, h)
        &&& forall|i: int| 0 <= i < self.snakes@.len()
            ==> cells_within((#[trigger] self.snakes@[i]).body@, w, h)
    }
}

/// Puts `coord` at segment `index` of `body`, filling any gap with `coord`.
fn place(body: &mut Vec<ApiCoords>, index: usize, coord: ApiCoords)
    requires
        index < 10000,
    ensures
        forall|k: int| 0 <= k < final(body)@.len() ==> #[trigger] final(body)@[k] == coord
            || (k < old(body)@.len() && final(body)@[k] == old(body)@[k]),
{
    while body.len() <= index
        invariant
            index < 10000,
            forall|k: int| 0 <= k < body@.len() ==> #[trigger] body@[k] == coord
                || (k < old(body)@.len() && body@[k] == old(body)@[k]),
        decreases index + 1 - body@.len(),
    {
        body.push(coord);
    }
    body.set(index, coord);
}

/// Whether the character at `i` of `s` satisfies the class named by `class`
/// (0: space, 1: letter, 2: digit).
fn char_is(s: &str, i: usize, class: u8) -> (r: bool)
    requires
        s.is_ascii(),
        i < s@.len(),
    ensures
        class == 0 ==> r == is_space(s@[i as int]),
        class == 1 ==> r == is_letter(s@[i as int]),
        class == 2 ==> r == is_digit(s@[i as int]),
{
    let c = s.get_char(i);
    if class == 0 {
        c == ' ' || c == '\t' || c == '\r' || c == '\n'
    } else if class == 1 {
        ('a' <= c && c <= 'z') || ('A' <= c && c <= 'Z')
    } else {
        '0' <= c && c <= '9'
    }
}

/// The decimal number written in `s[a..b]`, which must be all digits; none if it
/// is empty or has more than `max_digits` digits.
fn read_number(s: &str, a: usize, b: usize, max_digits: usize) -> (r: Option<u32>)
    requires
        s.is_ascii(),
        a <= b <= s@.len(),
        max_digits <= 9,
    ensures
        r matches Some(v) ==> v < 1_000_000_000 && (max_digits <= 4 ==> v < 10000),
{
    if a == b || b - a > max_digits {
        return None;
    }
    let mut v: u32 = 0;
    let mut i: usize = a;
    while i < b
        invariant
            a <= i <= b <= s@.len(),
            b - a <= max_digits <= 9,
            s.is_ascii(),
            v < pow10((i - a) as nat),
        decreases b - i,
    {
        let c = s.get_char(i);
        if !('0' <= c && c <= '9') {
            return None;
        }
        proof {
            assert(pow10((i - a + 1) as nat) == 10 * pow10((i - a) as nat));
            lemma_pow10_bound((i - a) as nat);
        }
        v = v * 10 + (c as u32 - '0' as u32);
        i += 1;
    }
    proof {
        lemma_pow10_values();
        lemma_pow10_mono((b - a) as nat, max_digits as nat);
        lemma_pow10_mono(max_digits as nat, 9);
        if max_digits <= 4 {
            lemma_pow10_mono(max_digits as nat, 4);
        }
    }
    Some(v)
}

spec fn pow10(n: nat) -> nat
    decreases n,
{
    if n == 0 { 1 } else { 10 * pow10((n - 1) as nat) }
}

proof fn lemma_pow10_values()
    ensures
        pow10(4) == 10000,
        pow10(9) == 1_000_000_000,
{
    assert(pow10(0) == 1);
    assert(pow10(1) == 10);
    assert(pow10(2) == 100);
    assert(pow10(3) == 1000);
    assert(pow10(4) == 10000);
    assert(pow10(5) == 100000);
    assert(pow10(6) == 1000000);
    assert(pow10(7) == 10000000);
    assert(pow10(8) == 100000000);
    assert(pow10(9) == 1000000000);
}

proof fn lemma_pow10_bound(n: nat)
    requires
        n < 9,
    ensures
        10 * pow10(n) <= 1_000_000_000,
{
    lemma_pow10_mono(n + 1, 9);
    lemma_pow10_values();
}

proof fn lemma_pow10_mono(m: nat, n: nat)
    requires
        m <= n,
    ensures
        pow10(m) <= pow10(n),
    decreases n,
{
    if m < n {
        lemma_pow10_mono(m, (n - 1) as nat);
    }
}


proof fn lemma_place_within(old_body: Seq<ApiCoords>, body: Seq<ApiCoords>, coord: ApiCoords, w: int, h: int)
    requires
        cells_within(old_body, w, h),
        coord.x < w && coord.y < h,
        forall|k: int| 0 <= k < body.len() ==> #[trigger] body[k] == coord
            || (k < old_body.len() && body[k] == old_body[k]),
    ensures
        cells_within(body, w, h),
{
    assert forall|k: int| 0 <= k < body.len() implies (#[trigger] body[k]).x < w && body[k].y < h by {
        if body[k] != coord {
            assert(old_body[k] == body[k]);
        }
    }
}

/// Skips spaces forward from `a` and backward from `b`.
fn trim(s: &str, from: usize, to: usize) -> (r: (usize, usize))
    requires
        s.is_ascii(),
        from <= to <= s@.len(),
    ensures
        from <= r.0 <= r.1 <= to,
{
    let mut a = from;
    let mut b = to;
    while a < b && char_is(s, a, 0)
        invariant
            from <= a <= b <= to <= s@.len(),
            s.is_ascii(),
        decreases b - a,
    {
        a += 1;
    }
    while b > a && char_is(s, b - 1, 0)
        invariant
            from <= a <= b <= to <= s@.len(),
            s.is_ascii(),
        decreases b - a,
    {
        b -= 1;
    }
    (a, b)
}

/// End of the run of letters starting at `a`, at most `b`.
fn letters_end(s: &str, a: usize, b: usize) -> (r: usize)
    requires
        s.is_ascii(),
        a <= b <= s@.len(),
    ensures
        a <= r <= b,
{
    let mut e = a;
    while e < b && char_is(s, e, 1)
        invariant
            a <= e <= b <= s@.len(),
            s.is_ascii(),
        decreases b - e,
    {
        e += 1;
    }
    e
}

impl Reading {
    /// Reads the cell `s[a..b]` at column `x` of row `y`: food, a snake segment, or nothing.
    fn read_cell(&mut self, s: &str, a: usize, b: usize, x: u32, y: u32, Ghost(w): Ghost<int>, Ghost(h): Ghost<int>)
        requires
            s.is_ascii(),
            a <= b <= s@.len(),
            x < w,
            y < h,
            old(self).within(w, h),
        ensures
            final(self).within(w, h),
            final(self).width == old(self).width,
            final(self).height == old(self).height,
    {
        let (a, b) = trim(s, a, b);
        if a == b {
            return;
        }
        let coord = ApiCoords { x, y };
        if b - a == 2 && s.get_char(a) == '(' && s.get_char(a + 1) == ')' {
            self.food.push(coord);
            assert(cells_within(self.food@, w, h)) by {
                assert forall|k: int| 0 <= k < self.food@.len() implies (#[trigger] self.food@[k]).x < w && self.food@[k].y < h by {
                    if k < self.food@.len() - 1 {
                        assert(self.food@[k] == old(self).food@[k]);
                    }
                }
            }
            return;
        }
        let e = letters_end(s, a, b);
        let index = match read_number(s, e, b, 4) {
            Some(v) => v as usize,
            None => {
                return;
            },
        };
        let name = s.substring_ascii(a, e);
        if e == a + 1 && s.get_char(a) == 'Y' {
            let ghost before = self.you@;
            place(&mut self.you, index, coord);
            proof {
                lemma_place_within(before, self.you@, coord, w, h);
            }
            return;
        }
        let mut k: usize = 0;
        while k < self.snakes.len()
            invariant
                self.within(w, h),
                self.width == old(self).width,
                self.height == old(self).height,
                coord.x < w && coord.y < h,
                index < 10000,
            decreases self.snakes@.len() - k,
        {
            if self.snakes[k].name.as_str() == name {
                let mut body = Vec::new();
                std::mem::swap(&mut body, &mut self.snakes[k].body);
                let ghost before = body@;
                place(&mut body, index, coord);
                proof {
                    lemma_place_within(before, body@, coord, w, h);
                }
                let ghost snakes_before = self.snakes@;
                self.snakes.set(k, Drawn { name: String::from_str(name), body });
                assert forall|i: int| 0 <= i < self.snakes@.len()
                    implies cells_within((#[trigger] self.snakes@[i]).body@, w, h) by {
                    if i != k {
                        assert(self.snakes@[i] == snakes_before[i]);
                    }
                }
                return;
            }
            k += 1;
        }
        let mut body: Vec<ApiCoords> = Vec::new();
        place(&mut body, index, coord);
        proof {
            lemma_place_within(Seq::empty(), body@, coord, w, h);
        }
        let ghost snakes_before = self.snakes@;
        self.snakes.push(Drawn { name: String::from_str(name), body });
        assert forall|i: int| 0 <= i < self.snakes@.len()
            implies cells_within((#[trigger] self.snakes@[i]).body@, w, h) by {
            if i < snakes_before.len() {
                assert(self.snakes@[i] == snakes_before[i]);
            }
        }
    }

    /// Reads a row `s[a..b]` of pipe-separated cells.
    fn read_row(&mut self, s: &str, a: usize, b: usize)
        requires
            s.is_ascii(),
            a <= b <= s@.len(),
            b - a < 100000,
            old(self).within(old(self).width as int, old(self).height as int),
            old(self).height < 100000,
            old(self).width < 100000,
        ensures
            final(self).within(final(self).width as int, final(self).height as int),
            final(self).height == old(self).height + 1,
            final(self).width == old(self).width || final(self).width <= b - a + 1,
    {
        let y = self.height;
        let mut p = a;
        while p < b && s.get_char(p) == '|'
            invariant
                a <= p <= b <= s@.len(),
                s.is_ascii(),
            decreases b - p,
        {
            p += 1;
        }
        let mut x: u32 = 0;
        let mut more = p < b;
        proof {
            lemma_within_grow(self, self.width as int, self.height as int, self.width as int, self.height + 1);
        }
        while more
            invariant
                s.is_ascii(),
                a <= p <= b <= s@.len(),
                y == old(self).height,
                y == self.height,
                self.width == old(self).width,
                self.width < 100000,
                x <= p - a + 1,
                more ==> x <= p - a,
                b - a < 100000,
                more ==> p < b,
                self.within(if x <= self.width { self.width as int } else { x as int }, y + 1),
            decreases b - p + if more { 1int } else { 0int },
        {
            let mut q = p;
            while q < b && s.get_char(q) != '|'
                invariant
                    p <= q <= b <= s@.len(),
                    s.is_ascii(),
                decreases b - q,
            {
                q += 1;
            }
            let wx: u32 = if x + 1 <= self.width { self.width } else { x + 1 };
            proof {
                lemma_within_grow(self, if x <= self.width { self.width as int } else { x as int }, y + 1, wx as int, y + 1);
            }
            self.read_cell(s, p, q, x, y, Ghost(wx as int), Ghost(y + 1));
            x = x + 1;
            if q == b || q + 1 == b {
                more = false;
                p = q;
            } else {
                p = q + 1;
            }
        }
        if x > self.width {
            self.width = x;
        }
        self.height = y + 1;
    }
}

proof fn lemma_within_grow(r: &Reading, w: int, h: int, w2: int, h2: int)
    requires
        r.within(w, h),
        w <= w2,
        h <= h2,
    ensures
        r.within(w2, h2),
{
    assert forall|i: int| 0 <= i < r.snakes@.len() implies cells_within((#[trigger] r.snakes@[i]).body@, w2, h2) by {
        assert(cells_within(r.snakes@[i].body@, w, h));
    }
}

impl ApiGameState {
    /// Reads a board drawn in text, one row per line, for tests and benchmarks.
    /// A row is `|`-separated cells, each empty, `()` for food, or a snake name
    /// (letters) followed by a segment index; the snake named `Y` is the acting
    /// agent. A line `+NAME<health>` sets a snake's health; health is 100
    /// otherwise. Other lines, malformed cells and text that is not ASCII are
    /// ignored.
    pub fn parse_basic(s: &str) -> (r: ApiGameState)
        ensures
            state_cells_within(r),
            r.turn == 0,
    {
        let mut reading = Reading {
            width: 0,
            height: 0,
            food: Vec::new(),
            you: Vec::new(),
            snakes: Vec::new(),
            healths: Vec::new(),
        };
        if s.is_ascii() {
            let n = s.unicode_len();
            let mut pos: usize = 0;
            while pos < n
                invariant
                    s.is_ascii(),
                    n == s@.len(),
                    pos <= n,
                    reading.within(reading.width as int, reading.height as int),
                decreases n - pos,
            {
                let mut end = pos;
                while end < n && s.get_char(end) != '\n'
                    invariant
                        pos <= end <= n,
                        n == s@.len(),
                    decreases n - end,
                {
                    end += 1;
                }
                let (a, b) = trim(s, pos, end);
                if a < b && s.get_char(a) == '|' && reading.height < 100000 && reading.width < 100000 && b - a < 100000 {
                    reading.read_row(s, a, b);
                } else if a < b && s.get_char(a) == '+' {
                    let e = letters_end(s, a + 1, b);
                    match read_number(s, e, b, 9) {
                        Some(health) => {
                            let name = s.substring_ascii(a + 1, e);
                            reading.healths.push((String::from_str(name), health));
                        },
                        None => {},
                    }
                }
                if end == n {
                    pos = n;
                } else {
                    pos = end + 1;
                }
            }
        }
        let width = reading.width;
        let height = reading.height;
        let mut snakes: Vec<ApiSnake> = Vec::new();
        let mut i: usize = 0;
        while i < reading.snakes.len()
            invariant
                reading.within(width as int, height as int),
                forall|k: int| 0 <= k < snakes@.len() ==> cells_within((#[trigger] snakes@[k]).body@, width as int, height as int),
            decreases reading.snakes@.len() - i,
        {
            let d = &reading.snakes[i];
            assert(cells_within(d.body@, width as int, height as int));
            let name = d.name.as_str();
            let health = health_of(&reading.healths, name);
            let mut id = String::from_str("id_");
            id.append(name);
            let body = copy_cells(&d.body);
            snakes.push(ApiSnake { id, name: String::from_str(name), health, body });
            i += 1;
        }
        let you_health = health_of(&reading.healths, "Y");
        let you_body = copy_cells(&reading.you);
        ApiGameState {
            game: ApiGame { id: String::from_str("123") },
            turn: 0,
            board: ApiBoard { height, width, food: copy_cells(&reading.food), snakes },
            you: ApiSnake { id: String::from_str("id_Y"), name: String::from_str("Y"), health: you_health, body: you_body },
        }
    }
}

/// The health last given to `name`, else 100.
fn health_of(healths: &Vec<(String, u32)>, name: &str) -> u32 {
    let mut h: u32 = 100;
    let mut i: usize = 0;
    while i < healths.len()
        decreases healths@.len() - i,
    {
        if healths[i].0.as_str() == name {
            h = healths[i].1;
        }
        i += 1;
    }
    h
}

/// A copy of a list of cells.
fn copy_cells(cells: &Vec<ApiCoords>) -> (r: Vec<ApiCoords>)
    ensures
        r@ == cells@,
{
    let mut r: Vec<ApiCoords> = Vec::new();
    let mut i: usize = 0;
    while i < cells.len()
        invariant
            i <= cells@.len(),
            r@ == cells@.subrange(0, i as int),
        decreases cells@.len() - i,
    {
        r.push(cells[i]);
        i += 1;
    }
    assert(r@ =~= cells@);
    r
}

} // verus!
