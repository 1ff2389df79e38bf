use vstd::prelude::*;
use crate::feature_detection::{lemma_split_cons, split_lines};
use crate::image_handler::{
    cell_body_upto, cell_content, cell_occupied, cells_h, cells_w, colour_hex, dec_digits,
    full_cmds, full_cmds_upto, hex_pair, lemma_row_bound, offset_cells, offset_cells_upto,
    offset_px_cmd, px_cmd, Frame, ImageConfig, Px,
};
use crate::wire::{
    all_dec_digits, dec_val, is_trailing_ws, lemma_tokens_cons, lemma_tokens_no_space, parse_dec,
    split_tokens, trim_end,
};

verus! {

// ---------------------------------------------------------------------------
// A reference model of a pixelflut server: it parses the command stream line
// by line and keeps a canvas of colour texts plus an offset accumulator.
// ---------------------------------------------------------------------------

/// `PX`
pub open spec fn kw_px() -> Seq<u8> {
    seq![80u8, 88u8]
}

/// `OFFSET`
pub open spec fn kw_anchor() -> Seq<u8> {
    seq![79u8, 70u8, 70u8, 83u8, 69u8, 84u8]
}

/// One parsed line of a command stream.
pub enum Line {
    /// `PX <x> <y> <colour>`: paint one pixel.
    Paint { x: u32, y: u32, hex: Seq<u8> },
    /// `OFFSET <x> <y>`: move the coordinate origin.
    Anchor { x: u32, y: u32 },
    /// Anything else is ignored.
    Other,
}

/// Parse one line (without its newline) as the reference server does.
pub open spec fn parse_line(l: Seq<u8>) -> Line {
    let toks = split_tokens(trim_end(l));
    if toks.len() == 4 && toks[0] == kw_px() && parse_dec(toks[1]) is Some && parse_dec(toks[2])
        is Some {
        Line::Paint { x: parse_dec(toks[1])->Some_0, y: parse_dec(toks[2])->Some_0, hex: toks[3] }
    } else if toks.len() == 3 && toks[0] == kw_anchor() && parse_dec(toks[1]) is Some && parse_dec(
        toks[2],
    ) is Some {
        Line::Anchor { x: parse_dec(toks[1])->Some_0, y: parse_dec(toks[2])->Some_0 }
    } else {
        Line::Other
    }
}

/// The server's state: the coordinate origin and, for every painted
/// position, the colour text last written there.
pub struct Canvas {
    pub ox: int,
    pub oy: int,
    pub cells: Map<(int, int), Seq<u8>>,
}

/// Fold one line into the server state.
pub open spec fn replay_line(c: Canvas, l: Seq<u8>) -> Canvas {
    match parse_line(l) {
        Line::Paint { x, y, hex } => Canvas {
            cells: c.cells.insert((c.ox + x, c.oy + y), hex),
            ..c
        },
        Line::Anchor { x, y } => Canvas { ox: x as int, oy: y as int, ..c },
        Line::Other => c,
    }
}

/// Fold a list of lines into the server state, first line first.
pub open spec fn replay(c: Canvas, lines: Seq<Seq<u8>>) -> Canvas
    decreases lines.len(),
{
    if lines.len() == 0 {
        c
    } else {
        replay(replay_line(c, lines.first()), lines.drop_first())
    }
}

/// Replay one draw item: split its bytes into lines and fold them in.
pub open spec fn replay_item(c: Canvas, item: Seq<u8>) -> Canvas {
    replay(c, split_lines(item))
}

/// Replay a whole command: every draw item in order.
pub open spec fn replay_items(c: Canvas, items: Seq<Seq<u8>>) -> Canvas
    decreases items.len(),
{
    if items.len() == 0 {
        c
    } else {
        replay_items(replay_item(c, items.first()), items.drop_first())
    }
}

// ---------------------------------------------------------------------------
// Replay distributes over list structure.
// ---------------------------------------------------------------------------

proof fn lemma_replay_snoc(c: Canvas, lines: Seq<Seq<u8>>, l: Seq<u8>)
    ensures
        replay(c, lines.push(l)) == replay_line(replay(c, lines), l),
    decreases lines.len(),
{
    if lines.len() == 0 {
        assert(lines.push(l).first() == l);
        assert(lines.push(l).drop_first() =~= Seq::<Seq<u8>>::empty());
        assert(replay(c, lines) == c);
        assert(replay(replay_line(c, l), Seq::<Seq<u8>>::empty()) == replay_line(c, l));
        assert(replay(c, lines.push(l)) == replay(
            replay_line(c, l),
            lines.push(l).drop_first(),
        ));
    } else {
        assert(lines.push(l).first() == lines.first());
        assert(lines.push(l).drop_first() =~= lines.drop_first().push(l));
        lemma_replay_snoc(replay_line(c, lines.first()), lines.drop_first(), l);
        assert(replay(c, lines.push(l)) == replay(
            replay_line(c, lines.first()),
            lines.drop_first().push(l),
        ));
        assert(replay(c, lines) == replay(replay_line(c, lines.first()), lines.drop_first()));
    }
}

proof fn lemma_replay_concat(c: Canvas, a: Seq<Seq<u8>>, b: Seq<Seq<u8>>)
    ensures
        replay(c, a + b) == replay(replay(c, a), b),
    decreases a.len(),
{
    if a.len() == 0 {
        assert(a + b =~= b);
    } else {
        assert((a + b).first() == a.first());
        assert((a + b).drop_first() =~= a.drop_first() + b);
        lemma_replay_concat(replay_line(c, a.first()), a.drop_first(), b);
    }
}

proof fn lemma_replay_items_snoc(c: Canvas, items: Seq<Seq<u8>>, item: Seq<u8>)
    ensures
        replay_items(c, items.push(item)) == replay_item(replay_items(c, items), item),
    decreases items.len(),
{
    if items.len() == 0 {
        assert(items.push(item).first() == item);
        assert(items.push(item).drop_first() =~= Seq::<Seq<u8>>::empty());
        assert(replay_items(c, items) == c);
        assert(replay_items(replay_item(c, item), Seq::<Seq<u8>>::empty()) == replay_item(
            c,
            item,
        ));
        assert(replay_items(c, items.push(item)) == replay_items(
            replay_item(c, item),
            items.push(item).drop_first(),
        ));
    } else {
        assert(items.push(item).first() == items.first());
        assert(items.push(item).drop_first() =~= items.drop_first().push(item));
        lemma_replay_items_snoc(replay_item(c, items.first()), items.drop_first(), item);
        assert(replay_items(c, items.push(item)) == replay_items(
            replay_item(c, items.first()),
            items.drop_first().push(item),
        ));
        assert(replay_items(c, items) == replay_items(
            replay_item(c, items.first()),
            items.drop_first(),
        ));
    }
}

// ---------------------------------------------------------------------------
// The encoder's lines parse back to what was encoded.
// ---------------------------------------------------------------------------

/// A full-dialect command without its newline.
pub open spec fn px_line(x: int, y: int, hex: Seq<u8>) -> Seq<u8> {
    seq![80u8, 88u8, 32u8] + dec_digits(x) + seq![32u8] + dec_digits(y) + seq![32u8] + hex
}

/// An offset-dialect command without its newline.
pub open spec fn offset_px_line(x: int, y: int, hex: Seq<u8>) -> Seq<u8> {
    seq![80u8, 88u8, 32u8, (48 + x % 10) as u8, 32u8, (48 + y % 10) as u8, 32u8] + hex
}

/// An anchor line without its newline.
pub open spec fn anchor_line(cfg: ImageConfig, col: int, row: int) -> Seq<u8> {
    seq![79u8, 70u8, 70u8, 83u8, 69u8, 84u8, 32u8] + dec_digits(col * 10 + cfg.x_offset)
        + seq![32u8] + dec_digits(row * 10 + cfg.y_offset)
}

/// A byte that never occurs inside a token of the encoder's lines: colour
/// digits and coordinate digits are never blank, never a separator.
pub open spec fn token_byte(b: u8) -> bool {
    (48 <= b <= 57) || (97 <= b <= 102)
}

proof fn lemma_dec_digits_props(n: int)
    requires
        0 <= n < 10000,
    ensures
        1 <= dec_digits(n).len() <= 4,
        all_dec_digits(dec_digits(n)),
        dec_val(dec_digits(n)) == n,
        parse_dec(dec_digits(n)) == Some(n as u32),
{
    vstd::arithmetic::div_mod::lemma_div_denominator(n, 10, 10);
    vstd::arithmetic::div_mod::lemma_div_denominator(n, 100, 10);
    assert(dec_val(Seq::<u8>::empty()) == 0);
    let s = dec_digits(n);
    if n < 10 {
        assert(s =~= seq![(48 + n) as u8]);
        assert(s.drop_last() =~= Seq::<u8>::empty());
        assert(dec_val(s) == n);
    } else if n < 100 {
        let a = (48 + n / 10) as u8;
        let b = (48 + n % 10) as u8;
        assert(s =~= seq![a, b]);
        assert(s.drop_last() =~= seq![a]);
        assert(seq![a].drop_last() =~= Seq::<u8>::empty());
        assert(dec_val(seq![a]) == n / 10);
        assert(dec_val(s) == (n / 10) * 10 + (n % 10));
        assert(dec_val(s) == n);
    } else if n < 1000 {
        let a = (48 + n / 100) as u8;
        let b = (48 + n / 10 % 10) as u8;
        let c = (48 + n % 10) as u8;
        assert(s =~= seq![a, b, c]);
        assert(s.drop_last() =~= seq![a, b]);
        assert(seq![a, b].drop_last() =~= seq![a]);
        assert(seq![a].drop_last() =~= Seq::<u8>::empty());
        assert(dec_val(seq![a]) == n / 100);
        assert(dec_val(seq![a, b]) == (n / 100) * 10 + (n / 10 % 10));
        assert((n / 10) / 10 == n / 100);
        assert(n / 10 == ((n / 10) / 10) * 10 + (n / 10) % 10);
        assert(dec_val(seq![a, b]) == n / 10);
        assert(dec_val(s) == (n / 10) * 10 + n % 10);
        assert(dec_val(s) == n);
    } else {
        let a = (48 + n / 1000) as u8;
        let b = (48 + n / 100 % 10) as u8;
        let c = (48 + n / 10 % 10) as u8;
        let d = (48 + n % 10) as u8;
        assert(s =~= seq![a, b, c, d]);
        assert(s.drop_last() =~= seq![a, b, c]);
        assert(seq![a, b, c].drop_last() =~= seq![a, b]);
        assert(seq![a, b].drop_last() =~= seq![a]);
        assert(seq![a].drop_last() =~= Seq::<u8>::empty());
        assert(dec_val(seq![a]) == n / 1000);
        assert((n / 100) / 10 == n / 1000);
        assert(n / 100 == ((n / 100) / 10) * 10 + (n / 100) % 10);
        assert(dec_val(seq![a, b]) == (n / 1000) * 10 + (n / 100 % 10));
        assert(dec_val(seq![a, b]) == n / 100);
        assert((n / 10) / 10 == n / 100);
        assert(n / 10 == ((n / 10) / 10) * 10 + (n / 10) % 10);
        assert(dec_val(seq![a, b, c]) == (n / 100) * 10 + (n / 10 % 10));
        assert(dec_val(seq![a, b, c]) == n / 10);
        assert(dec_val(s) == (n / 10) * 10 + n % 10);
        assert(dec_val(s) == n);
    }
}

/// The colour text of a pixel is made of hex digits only.
proof fn lemma_colour_hex_bytes(p: Px, cfg: ImageConfig)
    ensures
        2 <= colour_hex(p, cfg).len() <= 8,
        forall|i: int|
            0 <= i < colour_hex(p, cfg).len() ==> token_byte(#[trigger] colour_hex(p, cfg)[i]),
{
    let h = colour_hex(p, cfg);
    assert forall|i: int| 0 <= i < h.len() implies token_byte(h[i]) by {
        assert(forall|n: u8| token_byte(#[trigger] hex_pair(n)[0]) && token_byte(hex_pair(n)[1]));
    }
}

proof fn lemma_parse_px_line(x: int, y: int, hex: Seq<u8>)
    requires
        0 <= x < 10000,
        0 <= y < 10000,
        hex.len() >= 1,
        forall|i: int| 0 <= i < hex.len() ==> token_byte(#[trigger] hex[i]),
    ensures
        parse_line(px_line(x, y, hex)) == (Line::Paint { x: x as u32, y: y as u32, hex }),
{
    lemma_dec_digits_props(x);
    lemma_dec_digits_props(y);
    let s = px_line(x, y, hex);
    assert(s.last() == hex.last());
    assert(!is_trailing_ws(s.last()));
    assert(trim_end(s) == s);
    let rest2 = dec_digits(y) + seq![32u8] + hex;
    let rest1 = dec_digits(x) + seq![32u8] + rest2;
    assert(s =~= kw_px() + seq![32u8] + rest1);
    lemma_tokens_cons(kw_px(), rest1);
    lemma_tokens_cons(dec_digits(x), rest2);
    lemma_tokens_no_space(hex);
    assert(split_tokens(rest2) =~= seq![dec_digits(y), hex]) by {
        assert(rest2 =~= dec_digits(y) + seq![32u8] + hex);
        lemma_tokens_cons(dec_digits(y), hex);
    }
    let toks = split_tokens(trim_end(s));
    assert(toks =~= seq![kw_px(), dec_digits(x), dec_digits(y), hex]);
    assert(toks.len() == 4);
    assert(parse_dec(toks[1]) == Some(x as u32));
    assert(parse_dec(toks[2]) == Some(y as u32));
}

proof fn lemma_parse_offset_px_line(x: int, y: int, hex: Seq<u8>)
    requires
        0 <= x,
        0 <= y,
        hex.len() >= 1,
        forall|i: int| 0 <= i < hex.len() ==> token_byte(#[trigger] hex[i]),
    ensures
        parse_line(offset_px_line(x, y, hex)) == (Line::Paint {
            x: (x % 10) as u32,
            y: (y % 10) as u32,
            hex,
        }),
{
    let s = offset_px_line(x, y, hex);
    assert(s =~= px_line(x % 10, y % 10, hex)) by {
        assert(dec_digits(x % 10) =~= seq![(48 + x % 10) as u8]);
        assert(dec_digits(y % 10) =~= seq![(48 + y % 10) as u8]);
    }
    lemma_parse_px_line(x % 10, y % 10, hex);
}

proof fn lemma_parse_anchor_line(cfg: ImageConfig, col: int, row: int)
    requires
        0 <= col * 10 + cfg.x_offset < 10000,
        0 <= row * 10 + cfg.y_offset < 10000,
    ensures
        parse_line(anchor_line(cfg, col, row)) == (Line::Anchor {
            x: (col * 10 + cfg.x_offset) as u32,
            y: (row * 10 + cfg.y_offset) as u32,
        }),
{
    let ax = col * 10 + cfg.x_offset;
    let ay = row * 10 + cfg.y_offset;
    lemma_dec_digits_props(ax);
    lemma_dec_digits_props(ay);
    let s = anchor_line(cfg, col, row);
    assert(s.last() == dec_digits(ay).last());
    assert(!is_trailing_ws(s.last()));
    assert(trim_end(s) == s);
    let rest1 = dec_digits(ax) + seq![32u8] + dec_digits(ay);
    assert(s =~= kw_anchor() + seq![32u8] + rest1);
    lemma_tokens_cons(kw_anchor(), rest1);
    lemma_tokens_cons(dec_digits(ax), dec_digits(ay));
    lemma_tokens_no_space(dec_digits(ay));
    let toks = split_tokens(trim_end(s));
    assert(toks =~= seq![kw_anchor(), dec_digits(ax), dec_digits(ay)]);
    assert(toks.len() == 3);
    assert(toks[0] != kw_px());
    assert(parse_dec(toks[1]) == Some(ax as u32));
    assert(parse_dec(toks[2]) == Some(ay as u32));
}

proof fn lemma_parse_empty()
    ensures
        parse_line(Seq::<u8>::empty()) is Other,
{
    let e = Seq::<u8>::empty();
    assert(trim_end(e) == e);
    assert(split_tokens(e) =~= seq![e]);
    assert(split_tokens(trim_end(e)).len() == 1);
}

proof fn lemma_px_line_bytes(x: int, y: int, hex: Seq<u8>)
    requires
        0 <= x < 10000,
        0 <= y < 10000,
        forall|i: int| 0 <= i < hex.len() ==> token_byte(#[trigger] hex[i]),
    ensures
        forall|i: int| 0 <= i < px_line(x, y, hex).len() ==> #[trigger] px_line(x, y, hex)[i]
            != 10,
{
    lemma_dec_digits_props(x);
    lemma_dec_digits_props(y);
    let s = px_line(x, y, hex);
    let dx = dec_digits(x);
    let dy = dec_digits(y);
    assert forall|i: int| 0 <= i < s.len() implies s[i] != 10 by {
        if i < 3 {
        } else if i < 3 + dx.len() {
            assert(s[i] == dx[i - 3]);
            assert(48 <= dx[i - 3] <= 57);
        } else if i == 3 + dx.len() {
        } else if i < 4 + dx.len() + dy.len() {
            assert(s[i] == dy[i - 4 - dx.len()]);
            assert(48 <= dy[i - 4 - dx.len()] <= 57);
        } else if i == 4 + dx.len() + dy.len() {
        } else {
            assert(s[i] == hex[i - 5 - dx.len() - dy.len()]);
            assert(token_byte(hex[i - 5 - dx.len() - dy.len()]));
        }
    }
}

proof fn lemma_split_px_cmd(x: int, y: int, hex: Seq<u8>)
    requires
        0 <= x < 10000,
        0 <= y < 10000,
        forall|i: int| 0 <= i < hex.len() ==> token_byte(#[trigger] hex[i]),
    ensures
        split_lines(px_cmd(x, y, hex)) == seq![px_line(x, y, hex), Seq::<u8>::empty()],
{
    lemma_px_line_bytes(x, y, hex);
    assert(px_cmd(x, y, hex) =~= px_line(x, y, hex) + seq![10u8] + Seq::<u8>::empty());
    lemma_split_cons(px_line(x, y, hex), Seq::<u8>::empty());
    assert(split_lines(Seq::<u8>::empty()) =~= seq![Seq::<u8>::empty()]);
    assert(seq![px_line(x, y, hex)] + seq![Seq::<u8>::empty()] =~= seq![
        px_line(x, y, hex),
        Seq::<u8>::empty(),
    ]);
}

proof fn lemma_offset_px_line_bytes(x: int, y: int, hex: Seq<u8>)
    requires
        0 <= x,
        0 <= y,
        forall|i: int| 0 <= i < hex.len() ==> token_byte(#[trigger] hex[i]),
    ensures
        forall|i: int|
            0 <= i < offset_px_line(x, y, hex).len() ==> #[trigger] offset_px_line(x, y, hex)[i]
                != 10,
{
    let s = offset_px_line(x, y, hex);
    assert forall|i: int| 0 <= i < s.len() implies s[i] != 10 by {
        if i >= 7 {
            assert(s[i] == hex[i - 7]);
            assert(token_byte(hex[i - 7]));
        }
    }
}

proof fn lemma_anchor_line_bytes(cfg: ImageConfig, col: int, row: int)
    requires
        0 <= col * 10 + cfg.x_offset < 10000,
        0 <= row * 10 + cfg.y_offset < 10000,
    ensures
        forall|i: int|
            0 <= i < anchor_line(cfg, col, row).len() ==> #[trigger] anchor_line(cfg, col, row)[i]
                != 10,
{
    lemma_dec_digits_props(col * 10 + cfg.x_offset);
    lemma_dec_digits_props(row * 10 + cfg.y_offset);
    let s = anchor_line(cfg, col, row);
    let dx = dec_digits(col * 10 + cfg.x_offset);
    let dy = dec_digits(row * 10 + cfg.y_offset);
    assert forall|i: int| 0 <= i < s.len() implies s[i] != 10 by {
        if i < 7 {
        } else if i < 7 + dx.len() {
            assert(s[i] == dx[i - 7]);
            assert(48 <= dx[i - 7] <= 57);
        } else if i == 7 + dx.len() {
        } else {
            assert(s[i] == dy[i - 8 - dx.len()]);
            assert(48 <= dy[i - 8 - dx.len()] <= 57);
        }
    }
}

// ---------------------------------------------------------------------------
// The offset dialect's lines.
// ---------------------------------------------------------------------------

/// The pixel lines of cell (col, row) among the first `n` pixels, one line
/// per command and without the newlines.
pub open spec fn cell_cmd_lines(f: Frame, cfg: ImageConfig, col: int, row: int, n: int) -> Seq<
    Seq<u8>,
>
    decreases n,
{
    if n <= 0 {
        Seq::empty()
    } else {
        let rest = cell_cmd_lines(f, cfg, col, row, n - 1);
        let x = (n - 1) % (f.width as int);
        let y = (n - 1) / (f.width as int);
        let p = f.pixel(x, y);
        if p.a != 0 && x / 10 == col && y / 10 == row {
            rest.push(offset_px_line(x, y, colour_hex(p, cfg)))
        } else {
            rest
        }
    }
}

proof fn lemma_split_cell_body(f: Frame, cfg: ImageConfig, col: int, row: int, n: int, tail: Seq<
    u8,
>)
    requires
        0 <= n <= (f.width * f.height) as int,
    ensures
        split_lines(cell_body_upto(f, cfg, col, row, n) + tail) == cell_cmd_lines(
            f,
            cfg,
            col,
            row,
            n,
        ) + split_lines(tail),
    decreases n,
{
    if n <= 0 {
        assert(cell_body_upto(f, cfg, col, row, n) + tail =~= tail);
        assert(cell_cmd_lines(f, cfg, col, row, n) + split_lines(tail) =~= split_lines(tail));
    } else {
        lemma_row_bound(n - 1, f.width as int, f.height as int);
        let x = (n - 1) % (f.width as int);
        let y = (n - 1) / (f.width as int);
        let p = f.pixel(x, y);
        if p.a != 0 && x / 10 == col && y / 10 == row {
            let cmd = offset_px_cmd(x, y, colour_hex(p, cfg));
            let line = offset_px_line(x, y, colour_hex(p, cfg));
            assert(cell_body_upto(f, cfg, col, row, n) + tail =~= cell_body_upto(
                f,
                cfg,
                col,
                row,
                n - 1,
            ) + (cmd + tail));
            lemma_split_cell_body(f, cfg, col, row, n - 1, cmd + tail);
            lemma_colour_hex_bytes(p, cfg);
            lemma_offset_px_line_bytes(x, y, colour_hex(p, cfg));
            assert(cmd + tail =~= line + seq![10u8] + tail);
            lemma_split_cons(line, tail);
            assert(cell_cmd_lines(f, cfg, col, row, n - 1) + (seq![line] + split_lines(tail))
                =~= cell_cmd_lines(f, cfg, col, row, n) + split_lines(tail));
        } else {
            lemma_split_cell_body(f, cfg, col, row, n - 1, tail);
        }
    }
}

proof fn lemma_split_cell_content(f: Frame, cfg: ImageConfig, col: int, row: int)
    requires
        0 <= col * 10 + cfg.x_offset < 10000,
        0 <= row * 10 + cfg.y_offset < 10000,
    ensures
        split_lines(cell_content(f, cfg, col, row)) == seq![anchor_line(cfg, col, row)]
            + cell_cmd_lines(f, cfg, col, row, (f.width * f.height) as int) + seq![
            Seq::<u8>::empty(),
        ],
{
    let n = (f.width * f.height) as int;
    let body = cell_body_upto(f, cfg, col, row, n);
    assert(n >= 0) by (nonlinear_arith)
        requires
            0 <= f.width as int,
            0 <= f.height as int,
            n == (f.width * f.height) as int,
    ;
    assert(cell_content(f, cfg, col, row) =~= anchor_line(cfg, col, row) + seq![10u8] + body);
    lemma_anchor_line_bytes(cfg, col, row);
    lemma_split_cons(anchor_line(cfg, col, row), body);
    assert(body =~= body + Seq::<u8>::empty());
    lemma_split_cell_body(f, cfg, col, row, n, Seq::<u8>::empty());
    assert(split_lines(Seq::<u8>::empty()) =~= seq![Seq::<u8>::empty()]);
    assert(seq![anchor_line(cfg, col, row)] + (cell_cmd_lines(f, cfg, col, row, n) + seq![
        Seq::<u8>::empty(),
    ]) =~= seq![anchor_line(cfg, col, row)] + cell_cmd_lines(f, cfg, col, row, n) + seq![
        Seq::<u8>::empty(),
    ]);
}

// ---------------------------------------------------------------------------
// What either dialect paints.
// ---------------------------------------------------------------------------

/// The canvas after drawing the first `n` pixels over `base`: every visible
/// pixel's destination holds its colour text.
pub open spec fn painted_on(
    base: Map<(int, int), Seq<u8>>,
    f: Frame,
    cfg: ImageConfig,
    n: int,
) -> Map<(int, int), Seq<u8>>
    decreases n,
{
    if n <= 0 {
        base
    } else {
        let prev = painted_on(base, f, cfg, n - 1);
        let x = (n - 1) % (f.width as int);
        let y = (n - 1) / (f.width as int);
        let p = f.pixel(x, y);
        if p.a != 0 {
            prev.insert((x + cfg.x_offset, y + cfg.y_offset), colour_hex(p, cfg))
        } else {
            prev
        }
    }
}

/// The canvas after drawing cell (col, row)'s share of the first `n` pixels.
pub open spec fn cell_painted_on(
    base: Map<(int, int), Seq<u8>>,
    f: Frame,
    cfg: ImageConfig,
    col: int,
    row: int,
    n: int,
) -> Map<(int, int), Seq<u8>>
    decreases n,
{
    if n <= 0 {
        base
    } else {
        let prev = cell_painted_on(base, f, cfg, col, row, n - 1);
        let x = (n - 1) % (f.width as int);
        let y = (n - 1) / (f.width as int);
        let p = f.pixel(x, y);
        if p.a != 0 && x / 10 == col && y / 10 == row {
            prev.insert((x + cfg.x_offset, y + cfg.y_offset), colour_hex(p, cfg))
        } else {
            prev
        }
    }
}

/// The canvas after drawing the first `m` cells over `base`.
pub open spec fn cells_painted_on(
    base: Map<(int, int), Seq<u8>>,
    f: Frame,
    cfg: ImageConfig,
    m: int,
) -> Map<(int, int), Seq<u8>>
    decreases m,
{
    if m <= 0 {
        base
    } else {
        let prev = cells_painted_on(base, f, cfg, m - 1);
        let col = (m - 1) % cells_w(f);
        let row = (m - 1) / cells_w(f);
        if cell_occupied(f, cfg, col, row) {
            cell_painted_on(prev, f, cfg, col, row, (f.width * f.height) as int)
        } else {
            prev
        }
    }
}

// ---------------------------------------------------------------------------
// Replaying the full dialect.
// ---------------------------------------------------------------------------

proof fn lemma_replay_full(f: Frame, cfg: ImageConfig, c: Canvas, n: int)
    requires
        c.ox == 0,
        c.oy == 0,
        f.width + cfg.x_offset <= 10000,
        f.height + cfg.y_offset <= 10000,
        0 <= n <= (f.width * f.height) as int,
    ensures
        replay_items(c, full_cmds_upto(f, cfg, n)) == (Canvas {
            ox: 0,
            oy: 0,
            cells: painted_on(c.cells, f, cfg, n),
        }),
    decreases n,
{
    if n == 0 {
        assert(full_cmds_upto(f, cfg, 0) =~= Seq::<Seq<u8>>::empty());
        assert(replay_items(c, Seq::<Seq<u8>>::empty()) == c);
        assert(c == (Canvas { ox: 0, oy: 0, cells: painted_on(c.cells, f, cfg, 0) }));
    } else {
        lemma_replay_full(f, cfg, c, n - 1);
        lemma_row_bound(n - 1, f.width as int, f.height as int);
        let x = (n - 1) % (f.width as int);
        let y = (n - 1) / (f.width as int);
        let p = f.pixel(x, y);
        let state = Canvas { ox: 0, oy: 0, cells: painted_on(c.cells, f, cfg, n - 1) };
        if p.a != 0 {
            let hex = colour_hex(p, cfg);
            let cmd = px_cmd(x + cfg.x_offset, y + cfg.y_offset, hex);
            assert(full_cmds_upto(f, cfg, n) == full_cmds_upto(f, cfg, n - 1).push(cmd));
            lemma_replay_items_snoc(c, full_cmds_upto(f, cfg, n - 1), cmd);
            lemma_colour_hex_bytes(p, cfg);
            lemma_split_px_cmd(x + cfg.x_offset, y + cfg.y_offset, hex);
            lemma_parse_px_line(x + cfg.x_offset, y + cfg.y_offset, hex);
            lemma_parse_empty();
            let lines = split_lines(cmd);
            assert(lines == seq![
                px_line(x + cfg.x_offset, y + cfg.y_offset, hex),
                Seq::<u8>::empty(),
            ]);
            let after1 = replay_line(state, lines[0]);
            assert(after1 == (Canvas {
                ox: 0,
                oy: 0,
                cells: state.cells.insert((x + cfg.x_offset, y + cfg.y_offset), hex),
            }));
            assert(lines.first() == lines[0]);
            assert(lines.drop_first() =~= seq![Seq::<u8>::empty()]);
            assert(replay_line(after1, Seq::<u8>::empty()) == after1);
            assert(seq![Seq::<u8>::empty()].first() == Seq::<u8>::empty());
            assert(seq![Seq::<u8>::empty()].drop_first() =~= Seq::<Seq<u8>>::empty());
            assert(replay(after1, seq![Seq::<u8>::empty()]) == replay(
                after1,
                Seq::<Seq<u8>>::empty(),
            ));
            assert(replay(after1, Seq::<Seq<u8>>::empty()) == after1);
            assert(replay_item(state, cmd) == after1);
        } else {
            assert(full_cmds_upto(f, cfg, n) == full_cmds_upto(f, cfg, n - 1));
            assert(painted_on(c.cells, f, cfg, n) == painted_on(c.cells, f, cfg, n - 1));
        }
    }
}

// ---------------------------------------------------------------------------
// Replaying the offset dialect.
// ---------------------------------------------------------------------------

proof fn lemma_replay_cell_lines(f: Frame, cfg: ImageConfig, col: int, row: int, c: Canvas, n: int)
    requires
        c.ox == col * 10 + cfg.x_offset,
        c.oy == row * 10 + cfg.y_offset,
        0 <= n <= (f.width * f.height) as int,
    ensures
        replay(c, cell_cmd_lines(f, cfg, col, row, n)) == (Canvas {
            ox: c.ox,
            oy: c.oy,
            cells: cell_painted_on(c.cells, f, cfg, col, row, n),
        }),
    decreases n,
{
    if n == 0 {
        assert(cell_cmd_lines(f, cfg, col, row, 0) =~= Seq::<Seq<u8>>::empty());
        assert(replay(c, Seq::<Seq<u8>>::empty()) == c);
        assert(c == (Canvas {
            ox: c.ox,
            oy: c.oy,
            cells: cell_painted_on(c.cells, f, cfg, col, row, 0),
        }));
    } else {
        lemma_replay_cell_lines(f, cfg, col, row, c, n - 1);
        lemma_row_bound(n - 1, f.width as int, f.height as int);
        let x = (n - 1) % (f.width as int);
        let y = (n - 1) / (f.width as int);
        let p = f.pixel(x, y);
        let state = Canvas {
            ox: c.ox,
            oy: c.oy,
            cells: cell_painted_on(c.cells, f, cfg, col, row, n - 1),
        };
        if p.a != 0 && x / 10 == col && y / 10 == row {
            let hex = colour_hex(p, cfg);
            let line = offset_px_line(x, y, hex);
            assert(cell_cmd_lines(f, cfg, col, row, n) == cell_cmd_lines(
                f,
                cfg,
                col,
                row,
                n - 1,
            ).push(line));
            lemma_replay_snoc(c, cell_cmd_lines(f, cfg, col, row, n - 1), line);
            lemma_colour_hex_bytes(p, cfg);
            lemma_parse_offset_px_line(x, y, hex);
            assert(c.ox + (x % 10) == x + cfg.x_offset) by {
                assert(x == 10 * (x / 10) + x % 10);
            }
            assert(c.oy + (y % 10) == y + cfg.y_offset) by {
                assert(y == 10 * (y / 10) + y % 10);
            }
            assert(replay_line(state, line) == (Canvas {
                ox: c.ox,
                oy: c.oy,
                cells: state.cells.insert((x + cfg.x_offset, y + cfg.y_offset), hex),
            }));
        } else {
            assert(cell_cmd_lines(f, cfg, col, row, n) == cell_cmd_lines(f, cfg, col, row, n - 1));
            assert(cell_painted_on(c.cells, f, cfg, col, row, n) == cell_painted_on(
                c.cells,
                f,
                cfg,
                col,
                row,
                n - 1,
            ));
        }
    }
}

proof fn lemma_replay_cell_item(f: Frame, cfg: ImageConfig, col: int, row: int, c: Canvas)
    requires
        0 <= col * 10 + cfg.x_offset < 10000,
        0 <= row * 10 + cfg.y_offset < 10000,
    ensures
        replay_item(c, cell_content(f, cfg, col, row)) == (Canvas {
            ox: col * 10 + cfg.x_offset,
            oy: row * 10 + cfg.y_offset,
            cells: cell_painted_on(c.cells, f, cfg, col, row, (f.width * f.height) as int),
        }),
{
    let n = (f.width * f.height) as int;
    assert(n >= 0) by (nonlinear_arith)
        requires
            0 <= f.width as int,
            0 <= f.height as int,
            n == (f.width * f.height) as int,
    ;
    lemma_split_cell_content(f, cfg, col, row);
    let lines = split_lines(cell_content(f, cfg, col, row));
    let mid = cell_cmd_lines(f, cfg, col, row, n);
    assert(lines == seq![anchor_line(cfg, col, row)] + mid + seq![Seq::<u8>::empty()]);
    lemma_parse_anchor_line(cfg, col, row);
    lemma_parse_empty();
    let anchored = Canvas {
        ox: col * 10 + cfg.x_offset,
        oy: row * 10 + cfg.y_offset,
        cells: c.cells,
    };
    assert(replay_line(c, anchor_line(cfg, col, row)) == anchored);
    assert(lines =~= seq![anchor_line(cfg, col, row)] + (mid + seq![Seq::<u8>::empty()]));
    lemma_replay_concat(c, seq![anchor_line(cfg, col, row)], mid + seq![Seq::<u8>::empty()]);
    assert(replay(c, seq![anchor_line(cfg, col, row)]) == anchored) by {
        assert(seq![anchor_line(cfg, col, row)].first() == anchor_line(cfg, col, row));
        assert(seq![anchor_line(cfg, col, row)].drop_first() =~= Seq::<Seq<u8>>::empty());
        assert(replay(anchored, Seq::<Seq<u8>>::empty()) == anchored);
    }
    lemma_replay_concat(anchored, mid, seq![Seq::<u8>::empty()]);
    lemma_replay_cell_lines(f, cfg, col, row, anchored, n);
    let painted = Canvas {
        ox: anchored.ox,
        oy: anchored.oy,
        cells: cell_painted_on(c.cells, f, cfg, col, row, n),
    };
    assert(replay(painted, seq![Seq::<u8>::empty()]) == painted) by {
        assert(seq![Seq::<u8>::empty()].first() == Seq::<u8>::empty());
        assert(seq![Seq::<u8>::empty()].drop_first() =~= Seq::<Seq<u8>>::empty());
        assert(replay_line(painted, Seq::<u8>::empty()) == painted);
        assert(replay(painted, Seq::<Seq<u8>>::empty()) == painted);
    }
}

proof fn lemma_replay_offset(f: Frame, cfg: ImageConfig, c: Canvas, m: int)
    requires
        f.width + cfg.x_offset <= 10000,
        f.height + cfg.y_offset <= 10000,
        0 <= m <= cells_w(f) * cells_h(f),
    ensures
        replay_items(c, offset_cells_upto(f, cfg, m)).cells == cells_painted_on(
            c.cells,
            f,
            cfg,
            m,
        ),
    decreases m,
{
    if m == 0 {
        assert(offset_cells_upto(f, cfg, 0) =~= Seq::<Seq<u8>>::empty());
        assert(replay_items(c, Seq::<Seq<u8>>::empty()) == c);
    } else {
        lemma_replay_offset(f, cfg, c, m - 1);
        lemma_row_bound(m - 1, cells_w(f), cells_h(f));
        let col = (m - 1) % cells_w(f);
        let row = (m - 1) / cells_w(f);
        if cell_occupied(f, cfg, col, row) {
            assert(offset_cells_upto(f, cfg, m) == offset_cells_upto(f, cfg, m - 1).push(
                cell_content(f, cfg, col, row),
            ));
            lemma_replay_items_snoc(c, offset_cells_upto(f, cfg, m - 1), cell_content(
                f,
                cfg,
                col,
                row,
            ));
            assert(10 * ((f.width as int + 9) / 10) <= f.width as int + 9);
            assert(col * 10 <= (cells_w(f) - 1) * 10) by (nonlinear_arith)
                requires
                    0 <= col,
                    col < cells_w(f),
            ;
            assert(f.width >= 1) by {
                assert(cells_w(f) >= 1);
            }
            assert(col * 10 + cfg.x_offset < 10000);
            assert(10 * ((f.height as int + 9) / 10) <= f.height as int + 9);
            assert(row * 10 <= (cells_h(f) - 1) * 10) by (nonlinear_arith)
                requires
                    0 <= row,
                    row < cells_h(f),
            ;
            assert(f.height >= 1) by {
                assert(cells_h(f) >= 1);
            }
            assert(row * 10 + cfg.y_offset < 10000);
            lemma_replay_cell_item(f, cfg, col, row, replay_items(
                c,
                offset_cells_upto(f, cfg, m - 1),
            ));
        } else {
            assert(offset_cells_upto(f, cfg, m) == offset_cells_upto(f, cfg, m - 1));
            assert(cells_painted_on(c.cells, f, cfg, m) == cells_painted_on(c.cells, f, cfg, m
                - 1));
        }
    }
}

// ---------------------------------------------------------------------------
// Both dialects paint exactly the visible pixels.
// ---------------------------------------------------------------------------

/// Whether one of the first `n` pixels paints canvas position `k`.
pub open spec fn paints_key(f: Frame, cfg: ImageConfig, n: int, k: (int, int)) -> bool {
    let x = k.0 - cfg.x_offset;
    let y = k.1 - cfg.y_offset;
    &&& 0 <= x < f.width
    &&& 0 <= y < f.height
    &&& y * (f.width as int) + x < n
    &&& f.pixel(x, y).a != 0
}

/// The colour painted at canvas position `k`.
pub open spec fn key_colour(f: Frame, cfg: ImageConfig, k: (int, int)) -> Seq<u8> {
    colour_hex(f.pixel(k.0 - cfg.x_offset, k.1 - cfg.y_offset), cfg)
}

/// Whether a pixel of one of the first `m` cells paints position `k`.
pub open spec fn cells_paint_key(f: Frame, cfg: ImageConfig, m: int, k: (int, int)) -> bool {
    let x = k.0 - cfg.x_offset;
    let y = k.1 - cfg.y_offset;
    &&& 0 <= x < f.width
    &&& 0 <= y < f.height
    &&& (y / 10) * cells_w(f) + x / 10 < m
    &&& f.pixel(x, y).a != 0
}

proof fn lemma_index_unique(x1: int, y1: int, x2: int, y2: int, w: int)
    requires
        0 <= x1 < w,
        0 <= x2 < w,
        0 <= y1,
        0 <= y2,
        y1 * w + x1 == y2 * w + x2,
    ensures
        x1 == x2,
        y1 == y2,
{
    assert(x1 == x2 && y1 == y2) by (nonlinear_arith)
        requires
            0 <= x1 < w,
            0 <= x2 < w,
            0 <= y1,
            0 <= y2,
            y1 * w + x1 == y2 * w + x2,
    ;
}

proof fn lemma_painted_on_char(base: Map<(int, int), Seq<u8>>, f: Frame, cfg: ImageConfig, n: int)
    requires
        0 <= n <= (f.width * f.height) as int,
    ensures
        forall|k: (int, int)|
            #[trigger] painted_on(base, f, cfg, n).dom().contains(k) <==> (base.dom().contains(k)
                || paints_key(f, cfg, n, k)),
        forall|k: (int, int)|
            paints_key(f, cfg, n, k) ==> #[trigger] painted_on(base, f, cfg, n)[k] == key_colour(
                f,
                cfg,
                k,
            ),
        forall|k: (int, int)|
            !paints_key(f, cfg, n, k) && base.dom().contains(k) ==> #[trigger] painted_on(
                base,
                f,
                cfg,
                n,
            )[k] == base[k],
    decreases n,
{
    let w = f.width as int;
    if n == 0 {
        assert(painted_on(base, f, cfg, 0) == base);
        assert forall|k: (int, int)| !#[trigger] paints_key(f, cfg, 0, k) by {
            let px = k.0 - cfg.x_offset;
            let py = k.1 - cfg.y_offset;
            if 0 <= px < w && 0 <= py {
                assert(py * w + px >= 0) by (nonlinear_arith)
                    requires
                        0 <= px,
                        0 <= py,
                        0 <= w,
                ;
            }
        }
    } else {
        lemma_painted_on_char(base, f, cfg, n - 1);
        lemma_row_bound(n - 1, f.width as int, f.height as int);
        vstd::arithmetic::div_mod::lemma_fundamental_div_mod(n - 1, f.width as int);
        let x = (n - 1) % w;
        let y = (n - 1) / w;
        let p = f.pixel(x, y);
        let kk = (x + cfg.x_offset, y + cfg.y_offset);
        let prev = painted_on(base, f, cfg, n - 1);
        let cur = painted_on(base, f, cfg, n);
        assert(y * w + x == n - 1);
        assert forall|k: (int, int)| #[trigger]
            paints_key(f, cfg, n, k) == (paints_key(f, cfg, n - 1, k) || (p.a != 0 && k
                == kk)) by {
            let px = k.0 - cfg.x_offset;
            let py = k.1 - cfg.y_offset;
            if paints_key(f, cfg, n, k) && !paints_key(f, cfg, n - 1, k) {
                assert(py * w + px == n - 1);
                lemma_index_unique(px, py, x, y, w);
                assert(k == kk);
            }
        }
        assert forall|k: (int, int)| #[trigger] cur.dom().contains(k) <==> (base.dom().contains(
            k,
        ) || paints_key(f, cfg, n, k)) by {
            assert(prev.dom().contains(k) <==> (base.dom().contains(k) || paints_key(
                f,
                cfg,
                n - 1,
                k,
            )));
        }
        assert forall|k: (int, int)| paints_key(f, cfg, n, k) implies #[trigger] cur[k]
            == key_colour(f, cfg, k) by {
            if p.a != 0 && k == kk {
                assert(cur[k] == colour_hex(p, cfg));
                assert(key_colour(f, cfg, kk) == colour_hex(p, cfg));
            } else {
                assert(paints_key(f, cfg, n - 1, k));
                assert(prev[k] == key_colour(f, cfg, k));
                assert(cur[k] == prev[k]);
            }
        }
        assert forall|k: (int, int)| !paints_key(f, cfg, n, k) && base.dom().contains(k)
            implies #[trigger] cur[k] == base[k] by {
            assert(!paints_key(f, cfg, n - 1, k));
            assert(prev[k] == base[k]);
            if p.a != 0 {
                assert(paints_key(f, cfg, n, kk));
                assert(k != kk);
                assert(cur[k] == prev[k]);
            }
        }
    }
}

proof fn lemma_cell_painted_on_char(
    base: Map<(int, int), Seq<u8>>,
    f: Frame,
    cfg: ImageConfig,
    col: int,
    row: int,
    n: int,
)
    requires
        0 <= n <= (f.width * f.height) as int,
    ensures
        forall|k: (int, int)|
            #[trigger] cell_painted_on(base, f, cfg, col, row, n).dom().contains(k) <==> (
            base.dom().contains(k) || (paints_key(f, cfg, n, k) && (k.1 - cfg.y_offset) / 10 == row
                && (k.0 - cfg.x_offset) / 10 == col)),
        forall|k: (int, int)|
            paints_key(f, cfg, n, k) && (k.1 - cfg.y_offset) / 10 == row && (k.0 - cfg.x_offset)
                / 10 == col ==> #[trigger] cell_painted_on(base, f, cfg, col, row, n)[k]
                == key_colour(f, cfg, k),
        forall|k: (int, int)|
            !(paints_key(f, cfg, n, k) && (k.1 - cfg.y_offset) / 10 == row && (k.0 - cfg.x_offset)
                / 10 == col) && base.dom().contains(k) ==> #[trigger] cell_painted_on(
                base,
                f,
                cfg,
                col,
                row,
                n,
            )[k] == base[k],
    decreases n,
{
    let w = f.width as int;
    if n == 0 {
        assert(cell_painted_on(base, f, cfg, col, row, 0) == base);
        assert forall|k: (int, int)| !#[trigger] paints_key(f, cfg, 0, k) by {
            let px = k.0 - cfg.x_offset;
            let py = k.1 - cfg.y_offset;
            if 0 <= px < w && 0 <= py {
                assert(py * w + px >= 0) by (nonlinear_arith)
                    requires
                        0 <= px,
                        0 <= py,
                        0 <= w,
                ;
            }
        }
    } else {
        lemma_cell_painted_on_char(base, f, cfg, col, row, n - 1);
        lemma_row_bound(n - 1, f.width as int, f.height as int);
        vstd::arithmetic::div_mod::lemma_fundamental_div_mod(n - 1, f.width as int);
        let x = (n - 1) % w;
        let y = (n - 1) / w;
        let p = f.pixel(x, y);
        let kk = (x + cfg.x_offset, y + cfg.y_offset);
        let prev = cell_painted_on(base, f, cfg, col, row, n - 1);
        let cur = cell_painted_on(base, f, cfg, col, row, n);
        let hit = p.a != 0 && x / 10 == col && y / 10 == row;
        assert(y * w + x == n - 1) by {
            assert(w == f.width as int);
            assert(n - 1 == (f.width as int) * ((n - 1) / (f.width as int)) + ((n - 1) % (
            f.width as int)));
            assert(y * w == w * y) by (nonlinear_arith);
            assert(w * y == (f.width as int) * ((n - 1) / (f.width as int)));
        }
        assert forall|k: (int, int)|
            #![trigger paints_key(f, cfg, n, k)]
            (paints_key(f, cfg, n, k) && (k.1 - cfg.y_offset) / 10 == row && (k.0 - cfg.x_offset)
                / 10 == col) == ((paints_key(f, cfg, n - 1, k) && (k.1 - cfg.y_offset) / 10 == row
                && (k.0 - cfg.x_offset) / 10 == col) || (hit && k == kk)) by {
            let px = k.0 - cfg.x_offset;
            let py = k.1 - cfg.y_offset;
            if paints_key(f, cfg, n, k) && !paints_key(f, cfg, n - 1, k) {
                assert(py * w + px == n - 1);
                lemma_index_unique(px, py, x, y, w);
                assert(k == kk);
            }
        }
        assert forall|k: (int, int)| #[trigger] cur.dom().contains(k) <==> (base.dom().contains(
            k,
        ) || (paints_key(f, cfg, n, k) && (k.1 - cfg.y_offset) / 10 == row && (k.0
            - cfg.x_offset) / 10 == col)) by {
            assert(prev.dom().contains(k) <==> (base.dom().contains(k) || (paints_key(
                f,
                cfg,
                n - 1,
                k,
            ) && (k.1 - cfg.y_offset) / 10 == row && (k.0 - cfg.x_offset) / 10 == col)));
        }
        assert forall|k: (int, int)| paints_key(f, cfg, n, k) && (k.1 - cfg.y_offset) / 10 == row
            && (k.0 - cfg.x_offset) / 10 == col implies #[trigger] cur[k] == key_colour(
            f,
            cfg,
            k,
        ) by {
            if hit && k == kk {
                assert(cur[k] == colour_hex(p, cfg));
                assert(key_colour(f, cfg, kk) == colour_hex(p, cfg));
            } else {
                assert(paints_key(f, cfg, n - 1, k) && (k.1 - cfg.y_offset) / 10 == row && (k.0
                    - cfg.x_offset) / 10 == col);
                assert(prev[k] == key_colour(f, cfg, k));
                assert(cur[k] == prev[k]);
            }
        }
        assert forall|k: (int, int)| !(paints_key(f, cfg, n, k) && (k.1 - cfg.y_offset) / 10
            == row && (k.0 - cfg.x_offset) / 10 == col) && base.dom().contains(k)
            implies #[trigger] cur[k] == base[k] by {
            assert(!(paints_key(f, cfg, n - 1, k) && (k.1 - cfg.y_offset) / 10 == row && (k.0
                - cfg.x_offset) / 10 == col));
            assert(prev[k] == base[k]);
            if hit {
                assert(paints_key(f, cfg, n, kk));
                assert((kk.1 - cfg.y_offset) / 10 == row && (kk.0 - cfg.x_offset) / 10 == col);
                assert(k != kk);
                assert(cur[k] == prev[k]);
            }
        }
    }
}

/// Whether pixel `i` is visible and belongs to cell (col, row).
pub open spec fn cell_hit(f: Frame, cfg: ImageConfig, col: int, row: int, i: int) -> bool {
    let x = i % (f.width as int);
    let y = i / (f.width as int);
    f.pixel(x, y).a != 0 && x / 10 == col && y / 10 == row
}

proof fn lemma_occupied_iff(f: Frame, cfg: ImageConfig, col: int, row: int, n: int)
    requires
        0 <= n,
    ensures
        cell_body_upto(f, cfg, col, row, n).len() > 0 <==> exists|i: int|
            0 <= i < n && cell_hit(f, cfg, col, row, i),
    decreases n,
{
    if n > 0 {
        lemma_occupied_iff(f, cfg, col, row, n - 1);
        if cell_hit(f, cfg, col, row, n - 1) {
            assert(exists|i: int| 0 <= i < n && cell_hit(f, cfg, col, row, i));
        } else {
            assert(cell_body_upto(f, cfg, col, row, n) == cell_body_upto(f, cfg, col, row, n - 1));
            if exists|i: int| 0 <= i < n && cell_hit(f, cfg, col, row, i) {
                let i = choose|i: int| 0 <= i < n && cell_hit(f, cfg, col, row, i);
                assert(i < n - 1 || i == n - 1);
                assert(exists|i: int| 0 <= i < n - 1 && cell_hit(f, cfg, col, row, i));
            }
        }
    }
}

proof fn lemma_cell_bound(v: int, w: int)
    requires
        0 <= v < w,
    ensures
        0 <= v / 10 < (w + 9) / 10,
{
    assert(w + 9 == 10 * ((w + 9) / 10) + (w + 9) % 10);
    assert(10 * ((w + 9) / 10) >= w);
    assert(v / 10 < (w + 9) / 10) by (nonlinear_arith)
        requires
            0 <= v < w,
            10 * ((w + 9) / 10) >= w,
    ;
}

proof fn lemma_cells_painted_on_char(
    base: Map<(int, int), Seq<u8>>,
    f: Frame,
    cfg: ImageConfig,
    m: int,
)
    requires
        0 <= m <= cells_w(f) * cells_h(f),
    ensures
        forall|k: (int, int)|
            #[trigger] cells_painted_on(base, f, cfg, m).dom().contains(k) <==> (base.dom()
                .contains(k) || cells_paint_key(f, cfg, m, k)),
        forall|k: (int, int)|
            cells_paint_key(f, cfg, m, k) ==> #[trigger] cells_painted_on(base, f, cfg, m)[k]
                == key_colour(f, cfg, k),
        forall|k: (int, int)|
            !cells_paint_key(f, cfg, m, k) && base.dom().contains(k) ==> #[trigger] cells_painted_on(
                base,
                f,
                cfg,
                m,
            )[k] == base[k],
    decreases m,
{
    let w = f.width as int;
    let h = f.height as int;
    let n = (f.width * f.height) as int;
    if m == 0 {
        assert(cells_painted_on(base, f, cfg, 0) == base);
        assert forall|k: (int, int)| !#[trigger] cells_paint_key(f, cfg, 0, k) by {
            let px = k.0 - cfg.x_offset;
            let py = k.1 - cfg.y_offset;
            if 0 <= px < w && 0 <= py {
                assert((py / 10) * cells_w(f) + px / 10 >= 0) by (nonlinear_arith)
                    requires
                        0 <= px / 10,
                        0 <= py / 10,
                        0 <= cells_w(f),
                ;
            }
        }
    } else {
        lemma_cells_painted_on_char(base, f, cfg, m - 1);
        lemma_row_bound(m - 1, cells_w(f), cells_h(f));
        vstd::arithmetic::div_mod::lemma_fundamental_div_mod(m - 1, cells_w(f));
        let col = (m - 1) % cells_w(f);
        let row = (m - 1) / cells_w(f);
        let prev = cells_painted_on(base, f, cfg, m - 1);
        let cur = cells_painted_on(base, f, cfg, m);
        assert(n == w * h);
        assert(row * cells_w(f) + col == m - 1);
        assert forall|k: (int, int)| #[trigger]
            cells_paint_key(f, cfg, m, k) == (cells_paint_key(f, cfg, m - 1, k) || (paints_key(
                f,
                cfg,
                n,
                k,
            ) && (k.1 - cfg.y_offset) / 10 == row && (k.0 - cfg.x_offset) / 10 == col)) by {
            let px = k.0 - cfg.x_offset;
            let py = k.1 - cfg.y_offset;
            if 0 <= px < w && 0 <= py < h {
                lemma_cell_bound(px, w);
                lemma_cell_bound(py, h);
                assert(py * w + px < w * h) by (nonlinear_arith)
                    requires
                        0 <= px < w,
                        0 <= py < h,
                ;
                assert(py * w + px >= 0) by (nonlinear_arith)
                    requires
                        0 <= px,
                        0 <= py,
                        0 <= w,
                ;
                if cells_paint_key(f, cfg, m, k) && !cells_paint_key(f, cfg, m - 1, k) {
                    assert((py / 10) * cells_w(f) + px / 10 == m - 1);
                    lemma_index_unique(px / 10, py / 10, col, row, cells_w(f));
                }
            }
        }
        if cell_occupied(f, cfg, col, row) {
            lemma_cell_painted_on_char(prev, f, cfg, col, row, n);
            assert forall|k: (int, int)| #[trigger] cur.dom().contains(k) <==> (base.dom()
                .contains(k) || cells_paint_key(f, cfg, m, k)) by {
                assert(cur.dom().contains(k) <==> (prev.dom().contains(k) || (paints_key(
                    f,
                    cfg,
                    n,
                    k,
                ) && (k.1 - cfg.y_offset) / 10 == row && (k.0 - cfg.x_offset) / 10 == col)));
                assert(prev.dom().contains(k) <==> (base.dom().contains(k) || cells_paint_key(
                    f,
                    cfg,
                    m - 1,
                    k,
                )));
            }
            assert forall|k: (int, int)| cells_paint_key(f, cfg, m, k) implies #[trigger] cur[k]
                == key_colour(f, cfg, k) by {
                if paints_key(f, cfg, n, k) && (k.1 - cfg.y_offset) / 10 == row && (k.0
                    - cfg.x_offset) / 10 == col {
                } else {
                    assert(cells_paint_key(f, cfg, m - 1, k));
                    assert(prev[k] == key_colour(f, cfg, k));
                    assert(prev.dom().contains(k));
                    assert(cur[k] == prev[k]);
                }
            }
            assert forall|k: (int, int)| !cells_paint_key(f, cfg, m, k) && base.dom().contains(k)
                implies #[trigger] cur[k] == base[k] by {
                assert(!cells_paint_key(f, cfg, m - 1, k));
                assert(prev[k] == base[k]);
                assert(prev.dom().contains(k));
                assert(!(paints_key(f, cfg, n, k) && (k.1 - cfg.y_offset) / 10 == row && (k.0
                    - cfg.x_offset) / 10 == col));
                assert(cur[k] == prev[k]);
            }
        } else {
            lemma_occupied_iff(f, cfg, col, row, n);
            assert forall|k: (int, int)| !(#[trigger] paints_key(f, cfg, n, k) && (k.1
                - cfg.y_offset) / 10 == row && (k.0 - cfg.x_offset) / 10 == col) by {
                let px = k.0 - cfg.x_offset;
                let py = k.1 - cfg.y_offset;
                if paints_key(f, cfg, n, k) && py / 10 == row && px / 10 == col {
                    let i = py * w + px;
                    assert(i < w * h) by (nonlinear_arith)
                        requires
                            0 <= px < w,
                            0 <= py < h,
                            i == py * w + px,
                    ;
                    assert(i >= 0) by (nonlinear_arith)
                        requires
                            0 <= px,
                            0 <= py,
                            0 <= w,
                            i == py * w + px,
                    ;
                    vstd::arithmetic::div_mod::lemma_fundamental_div_mod_converse(i, w, py, px);
                    assert(cell_hit(f, cfg, col, row, i));
                }
            }
        }
    }
}

// ---------------------------------------------------------------------------
// The same, at the level of raw byte streams.
// ---------------------------------------------------------------------------

/// The full-dialect commands of the first `n` pixels as lines without
/// newlines, in row-major order.
pub open spec fn full_cmd_lines(f: Frame, cfg: ImageConfig, n: int) -> Seq<Seq<u8>>
    decreases n,
{
    if n <= 0 {
        Seq::empty()
    } else {
        let rest = full_cmd_lines(f, cfg, n - 1);
        let x = (n - 1) % (f.width as int);
        let y = (n - 1) / (f.width as int);
        let p = f.pixel(x, y);
        if p.a == 0 {
            rest
        } else {
            rest.push(px_line(x + cfg.x_offset, y + cfg.y_offset, colour_hex(p, cfg)))
        }
    }
}

/// The offset-dialect lines of the first `m` cells: an anchor line and the
/// relative pixel lines for every occupied cell.
pub open spec fn offset_lines_upto(f: Frame, cfg: ImageConfig, m: int) -> Seq<Seq<u8>>
    decreases m,
{
    if m <= 0 {
        Seq::empty()
    } else {
        let rest = offset_lines_upto(f, cfg, m - 1);
        let col = (m - 1) % cells_w(f);
        let row = (m - 1) / cells_w(f);
        if cell_occupied(f, cfg, col, row) {
            rest + seq![anchor_line(cfg, col, row)] + cell_cmd_lines(
                f,
                cfg,
                col,
                row,
                (f.width * f.height) as int,
            )
        } else {
            rest
        }
    }
}

proof fn lemma_split_full_stream(f: Frame, cfg: ImageConfig, n: int, tail: Seq<u8>)
    requires
        0 <= n <= (f.width * f.height) as int,
        f.width + cfg.x_offset <= 10000,
        f.height + cfg.y_offset <= 10000,
    ensures
        split_lines(full_cmds_upto(f, cfg, n).flatten() + tail) == full_cmd_lines(f, cfg, n)
            + split_lines(tail),
    decreases n,
{
    if n <= 0 {
        assert(full_cmds_upto(f, cfg, n) =~= Seq::<Seq<u8>>::empty());
        assert(Seq::<Seq<u8>>::empty().flatten() =~= Seq::<u8>::empty());
        assert(full_cmds_upto(f, cfg, n).flatten() + tail =~= tail);
        assert(full_cmd_lines(f, cfg, n) + split_lines(tail) =~= split_lines(tail));
    } else {
        lemma_row_bound(n - 1, f.width as int, f.height as int);
        let x = (n - 1) % (f.width as int);
        let y = (n - 1) / (f.width as int);
        let p = f.pixel(x, y);
        if p.a != 0 {
            let hex = colour_hex(p, cfg);
            let cmd = px_cmd(x + cfg.x_offset, y + cfg.y_offset, hex);
            let line = px_line(x + cfg.x_offset, y + cfg.y_offset, hex);
            assert(full_cmds_upto(f, cfg, n) == full_cmds_upto(f, cfg, n - 1).push(cmd));
            full_cmds_upto(f, cfg, n - 1).lemma_flatten_push(cmd);
            assert(full_cmds_upto(f, cfg, n).flatten() + tail =~= full_cmds_upto(
                f,
                cfg,
                n - 1,
            ).flatten() + (cmd + tail));
            lemma_split_full_stream(f, cfg, n - 1, cmd + tail);
            lemma_colour_hex_bytes(p, cfg);
            lemma_px_line_bytes(x + cfg.x_offset, y + cfg.y_offset, hex);
            assert(cmd + tail =~= line + seq![10u8] + tail);
            lemma_split_cons(line, tail);
            assert(full_cmd_lines(f, cfg, n - 1) + (seq![line] + split_lines(tail))
                =~= full_cmd_lines(f, cfg, n) + split_lines(tail));
        } else {
            lemma_split_full_stream(f, cfg, n - 1, tail);
        }
    }
}

proof fn lemma_split_offset_stream(f: Frame, cfg: ImageConfig, m: int, tail: Seq<u8>)
    requires
        0 <= m <= cells_w(f) * cells_h(f),
        f.width + cfg.x_offset <= 10000,
        f.height + cfg.y_offset <= 10000,
    ensures
        split_lines(offset_cells_upto(f, cfg, m).flatten() + tail) == offset_lines_upto(f, cfg, m)
            + split_lines(tail),
    decreases m,
{
    let n = (f.width * f.height) as int;
    assert(n >= 0) by (nonlinear_arith)
        requires
            0 <= (f.width as int),
            0 <= (f.height as int),
            n == (f.width as int) * (f.height as int),
    ;
    if m <= 0 {
        assert(offset_cells_upto(f, cfg, m) =~= Seq::<Seq<u8>>::empty());
        assert(Seq::<Seq<u8>>::empty().flatten() =~= Seq::<u8>::empty());
        assert(offset_cells_upto(f, cfg, m).flatten() + tail =~= tail);
        assert(offset_lines_upto(f, cfg, m) + split_lines(tail) =~= split_lines(tail));
    } else {
        lemma_row_bound(m - 1, cells_w(f), cells_h(f));
        let col = (m - 1) % cells_w(f);
        let row = (m - 1) / cells_w(f);
        if cell_occupied(f, cfg, col, row) {
            let item = cell_content(f, cfg, col, row);
            assert(offset_cells_upto(f, cfg, m) == offset_cells_upto(f, cfg, m - 1).push(item));
            offset_cells_upto(f, cfg, m - 1).lemma_flatten_push(item);
            assert(offset_cells_upto(f, cfg, m).flatten() + tail =~= offset_cells_upto(
                f,
                cfg,
                m - 1,
            ).flatten() + (item + tail));
            lemma_split_offset_stream(f, cfg, m - 1, item + tail);
            assert(10 * ((f.width as int + 9) / 10) <= f.width as int + 9);
            assert(col * 10 <= (cells_w(f) - 1) * 10) by (nonlinear_arith)
                requires
                    0 <= col,
                    col < cells_w(f),
            ;
            assert(f.width >= 1) by {
                assert(cells_w(f) >= 1);
            }
            assert(col * 10 + cfg.x_offset < 10000);
            assert(10 * ((f.height as int + 9) / 10) <= f.height as int + 9);
            assert(row * 10 <= (cells_h(f) - 1) * 10) by (nonlinear_arith)
                requires
                    0 <= row,
                    row < cells_h(f),
            ;
            assert(f.height >= 1) by {
                assert(cells_h(f) >= 1);
            }
            assert(row * 10 + cfg.y_offset < 10000);
            lemma_anchor_line_bytes(cfg, col, row);
            assert(item + tail =~= anchor_line(cfg, col, row) + seq![10u8] + (cell_body_upto(
                f,
                cfg,
                col,
                row,
                n,
            ) + tail));
            lemma_split_cons(anchor_line(cfg, col, row), cell_body_upto(f, cfg, col, row, n)
                + tail);
            lemma_split_cell_body(f, cfg, col, row, n, tail);
            assert(offset_lines_upto(f, cfg, m - 1) + (seq![anchor_line(cfg, col, row)] + (
            cell_cmd_lines(f, cfg, col, row, n) + split_lines(tail))) =~= offset_lines_upto(
                f,
                cfg,
                m,
            ) + split_lines(tail));
        } else {
            lemma_split_offset_stream(f, cfg, m - 1, tail);
        }
    }
}

proof fn lemma_replay_full_lines(f: Frame, cfg: ImageConfig, c: Canvas, n: int)
    requires
        c.ox == 0,
        c.oy == 0,
        f.width + cfg.x_offset <= 10000,
        f.height + cfg.y_offset <= 10000,
        0 <= n <= (f.width * f.height) as int,
    ensures
        replay(c, full_cmd_lines(f, cfg, n)) == (Canvas {
            ox: 0,
            oy: 0,
            cells: painted_on(c.cells, f, cfg, n),
        }),
    decreases n,
{
    if n == 0 {
        assert(full_cmd_lines(f, cfg, 0) =~= Seq::<Seq<u8>>::empty());
        assert(replay(c, Seq::<Seq<u8>>::empty()) == c);
        assert(c == (Canvas { ox: 0, oy: 0, cells: painted_on(c.cells, f, cfg, 0) }));
    } else {
        lemma_replay_full_lines(f, cfg, c, n - 1);
        lemma_row_bound(n - 1, f.width as int, f.height as int);
        let x = (n - 1) % (f.width as int);
        let y = (n - 1) / (f.width as int);
        let p = f.pixel(x, y);
        let state = Canvas { ox: 0, oy: 0, cells: painted_on(c.cells, f, cfg, n - 1) };
        if p.a != 0 {
            let hex = colour_hex(p, cfg);
            let line = px_line(x + cfg.x_offset, y + cfg.y_offset, hex);
            assert(full_cmd_lines(f, cfg, n) == full_cmd_lines(f, cfg, n - 1).push(line));
            lemma_replay_snoc(c, full_cmd_lines(f, cfg, n - 1), line);
            lemma_colour_hex_bytes(p, cfg);
            lemma_parse_px_line(x + cfg.x_offset, y + cfg.y_offset, hex);
            assert(replay_line(state, line) == (Canvas {
                ox: 0,
                oy: 0,
                cells: state.cells.insert((x + cfg.x_offset, y + cfg.y_offset), hex),
            }));
        } else {
            assert(full_cmd_lines(f, cfg, n) == full_cmd_lines(f, cfg, n - 1));
            assert(painted_on(c.cells, f, cfg, n) == painted_on(c.cells, f, cfg, n - 1));
        }
    }
}

proof fn lemma_replay_offset_lines(f: Frame, cfg: ImageConfig, c: Canvas, m: int)
    requires
        f.width + cfg.x_offset <= 10000,
        f.height + cfg.y_offset <= 10000,
        0 <= m <= cells_w(f) * cells_h(f),
    ensures
        replay(c, offset_lines_upto(f, cfg, m)).cells == cells_painted_on(c.cells, f, cfg, m),
    decreases m,
{
    let n = (f.width * f.height) as int;
    assert(n >= 0) by (nonlinear_arith)
        requires
            0 <= (f.width as int),
            0 <= (f.height as int),
            n == (f.width as int) * (f.height as int),
    ;
    if m == 0 {
        assert(offset_lines_upto(f, cfg, 0) =~= Seq::<Seq<u8>>::empty());
        assert(replay(c, Seq::<Seq<u8>>::empty()) == c);
    } else {
        lemma_replay_offset_lines(f, cfg, c, m - 1);
        lemma_row_bound(m - 1, cells_w(f), cells_h(f));
        let col = (m - 1) % cells_w(f);
        let row = (m - 1) / cells_w(f);
        if cell_occupied(f, cfg, col, row) {
            assert(10 * ((f.width as int + 9) / 10) <= f.width as int + 9);
            assert(col * 10 <= (cells_w(f) - 1) * 10) by (nonlinear_arith)
                requires
                    0 <= col,
                    col < cells_w(f),
            ;
            assert(f.width >= 1) by {
                assert(cells_w(f) >= 1);
            }
            assert(col * 10 + cfg.x_offset < 10000);
            assert(10 * ((f.height as int + 9) / 10) <= f.height as int + 9);
            assert(row * 10 <= (cells_h(f) - 1) * 10) by (nonlinear_arith)
                requires
                    0 <= row,
                    row < cells_h(f),
            ;
            assert(f.height >= 1) by {
                assert(cells_h(f) >= 1);
            }
            assert(row * 10 + cfg.y_offset < 10000);
            let mid = cell_cmd_lines(f, cfg, col, row, n);
            assert(offset_lines_upto(f, cfg, m) =~= offset_lines_upto(f, cfg, m - 1) + (seq![
                anchor_line(cfg, col, row),
            ] + mid));
            let before = replay(c, offset_lines_upto(f, cfg, m - 1));
            lemma_replay_concat(c, offset_lines_upto(f, cfg, m - 1), seq![
                anchor_line(cfg, col, row),
            ] + mid);
            lemma_parse_anchor_line(cfg, col, row);
            let anchored = Canvas {
                ox: col * 10 + cfg.x_offset,
                oy: row * 10 + cfg.y_offset,
                cells: before.cells,
            };
            assert(replay_line(before, anchor_line(cfg, col, row)) == anchored);
            lemma_replay_concat(before, seq![anchor_line(cfg, col, row)], mid);
            assert(replay(before, seq![anchor_line(cfg, col, row)]) == anchored) by {
                assert(seq![anchor_line(cfg, col, row)].first() == anchor_line(cfg, col, row));
                assert(seq![anchor_line(cfg, col, row)].drop_first() =~= Seq::<Seq<u8>>::empty());
                assert(replay(anchored, Seq::<Seq<u8>>::empty()) == anchored);
            }
            lemma_replay_cell_lines(f, cfg, col, row, anchored, n);
        } else {
            assert(offset_lines_upto(f, cfg, m) == offset_lines_upto(f, cfg, m - 1));
            assert(cells_painted_on(c.cells, f, cfg, m) == cells_painted_on(c.cells, f, cfg, m
                - 1));
        }
    }
}

// ---------------------------------------------------------------------------
// Offset-dialect totality: one pixel command per visible pixel.
// ---------------------------------------------------------------------------

/// The number of pixel commands that the first `m` cells hold, counting each
/// cell's share of the first `n` pixels. Cells without visible pixels hold
/// none (and are not even emitted).
pub open spec fn cells_cmd_count(f: Frame, cfg: ImageConfig, m: int, n: int) -> int
    decreases m,
{
    if m <= 0 {
        0
    } else {
        cells_cmd_count(f, cfg, m - 1, n) + cell_cmd_lines(
            f,
            cfg,
            (m - 1) % cells_w(f),
            (m - 1) / cells_w(f),
            n,
        ).len()
    }
}

proof fn lemma_count_step(f: Frame, cfg: ImageConfig, m: int, n: int)
    requires
        0 < n <= (f.width * f.height) as int,
        0 <= m <= cells_w(f) * cells_h(f),
    ensures
        cells_cmd_count(f, cfg, m, n) == cells_cmd_count(f, cfg, m, n - 1) + ({
            let x = (n - 1) % (f.width as int);
            let y = (n - 1) / (f.width as int);
            if f.pixel(x, y).a != 0 && (y / 10) * cells_w(f) + x / 10 < m {
                1int
            } else {
                0int
            }
        }),
    decreases m,
{
    let w = f.width as int;
    let h = f.height as int;
    lemma_row_bound(n - 1, w, h);
    let x = (n - 1) % w;
    let y = (n - 1) / w;
    let p = f.pixel(x, y);
    lemma_cell_bound(x, w);
    lemma_cell_bound(y, h);
    if m > 0 {
        lemma_count_step(f, cfg, m - 1, n);
        vstd::arithmetic::div_mod::lemma_fundamental_div_mod(m - 1, cells_w(f));
        let col = (m - 1) % cells_w(f);
        let row = (m - 1) / cells_w(f);
        assert(row * cells_w(f) + col == m - 1);
        if p.a != 0 && x / 10 == col && y / 10 == row {
            assert((y / 10) * cells_w(f) + x / 10 == m - 1);
        } else if p.a != 0 && (y / 10) * cells_w(f) + x / 10 == m - 1 {
            lemma_index_unique(x / 10, y / 10, col, row, cells_w(f));
        }
    }
}

proof fn lemma_count_all(f: Frame, cfg: ImageConfig, n: int)
    requires
        0 <= n <= (f.width * f.height) as int,
    ensures
        cells_cmd_count(f, cfg, cells_w(f) * cells_h(f), n) == crate::image_handler::visible_upto(
            f,
            n,
        ),
    decreases n,
{
    let w = f.width as int;
    let h = f.height as int;
    let m = cells_w(f) * cells_h(f);
    if n == 0 {
        lemma_count_zero(f, cfg, m, 0);
    } else {
        lemma_count_all(f, cfg, n - 1);
        assert(0 <= m) by (nonlinear_arith)
            requires
                0 <= cells_w(f),
                0 <= cells_h(f),
                m == cells_w(f) * cells_h(f),
        ;
        lemma_count_step(f, cfg, m, n);
        lemma_row_bound(n - 1, w, h);
        let x = (n - 1) % w;
        let y = (n - 1) / w;
        if f.pixel(x, y).a != 0 {
            lemma_cell_bound(x, w);
            lemma_cell_bound(y, h);
            assert((y / 10) * cells_w(f) + x / 10 < cells_w(f) * cells_h(f)) by (nonlinear_arith)
                requires
                    0 <= x / 10 < cells_w(f),
                    0 <= y / 10 < cells_h(f),
            ;
        }
    }
}

proof fn lemma_count_zero(f: Frame, cfg: ImageConfig, m: int, n: int)
    requires
        n <= 0,
    ensures
        cells_cmd_count(f, cfg, m, n) == 0,
    decreases m,
{
    if m > 0 {
        lemma_count_zero(f, cfg, m - 1, n);
        assert(cell_cmd_lines(f, cfg, (m - 1) % cells_w(f), (m - 1) / cells_w(f), n)
            =~= Seq::<Seq<u8>>::empty());
    }
}

/// Offset-dialect totality: across all cells there is exactly one pixel
/// command per visible pixel of the frame; fully transparent pixels produce
/// none, and pixel-free cells hold no commands at all.
pub proof fn lemma_offset_totality(f: Frame, cfg: ImageConfig)
    ensures
        cells_cmd_count(f, cfg, cells_w(f) * cells_h(f), (f.width * f.height) as int)
            == crate::image_handler::visible_count(f),
{
    assert(0 <= (f.width * f.height) as int) by (nonlinear_arith)
        requires
            0 <= f.width as int,
            0 <= f.height as int,
    ;
    lemma_count_all(f, cfg, (f.width * f.height) as int);
}

// ---------------------------------------------------------------------------
// The offset-dialect law.
// ---------------------------------------------------------------------------

// ---------------------------------------------------------------------------
// Replaying cell items in any order and with repetitions.
// ---------------------------------------------------------------------------

proof fn lemma_anchor_bounds(f: Frame, cfg: ImageConfig, col: int, row: int)
    requires
        f.width + cfg.x_offset <= 10000,
        f.height + cfg.y_offset <= 10000,
        0 <= col < cells_w(f),
        0 <= row < cells_h(f),
    ensures
        0 <= col * 10 + cfg.x_offset < 10000,
        0 <= row * 10 + cfg.y_offset < 10000,
{
    assert(10 * ((f.width as int + 9) / 10) <= f.width as int + 9);
    assert(col * 10 <= (cells_w(f) - 1) * 10) by (nonlinear_arith)
        requires
            0 <= col,
            col < cells_w(f),
    ;
    assert(f.width >= 1) by {
        assert(cells_w(f) >= 1);
    }
    assert(10 * ((f.height as int + 9) / 10) <= f.height as int + 9);
    assert(row * 10 <= (cells_h(f) - 1) * 10) by (nonlinear_arith)
        requires
            0 <= row,
            row < cells_h(f),
    ;
    assert(f.height >= 1) by {
        assert(cells_h(f) >= 1);
    }
}

/// Whether the cell grid position (col, row) occurs in the list.
pub open spec fn listed(cells: Seq<(int, int)>, col: int, row: int) -> bool {
    exists|j: int| 0 <= j < cells.len() && cells[j] == (col, row)
}

/// Whether every entry of the list is a cell of the frame's grid.
pub open spec fn cells_in_range(f: Frame, cells: Seq<(int, int)>) -> bool {
    forall|j: int|
        0 <= j < cells.len() ==> 0 <= (#[trigger] cells[j]).0 < cells_w(f) && 0 <= cells[j].1
            < cells_h(f)
}

/// The draw items of the given cells, in the given order.
pub open spec fn cell_items(f: Frame, cfg: ImageConfig, cells: Seq<(int, int)>) -> Seq<Seq<u8>> {
    cells.map_values(|cr: (int, int)| cell_content(f, cfg, cr.0, cr.1))
}

proof fn lemma_replay_cell_list(f: Frame, cfg: ImageConfig, c: Canvas, cells: Seq<(int, int)>)
    requires
        f.width + cfg.x_offset <= 10000,
        f.height + cfg.y_offset <= 10000,
        cells_in_range(f, cells),
    ensures
        forall|k: (int, int)|
            #[trigger] replay_items(c, cell_items(f, cfg, cells)).cells.dom().contains(k) <==> (
            c.cells.dom().contains(k) || (paints_key(f, cfg, (f.width * f.height) as int, k)
                && listed(cells, (k.0 - cfg.x_offset) / 10, (k.1 - cfg.y_offset) / 10))),
        forall|k: (int, int)|
            paints_key(f, cfg, (f.width * f.height) as int, k) && listed(
                cells,
                (k.0 - cfg.x_offset) / 10,
                (k.1 - cfg.y_offset) / 10,
            ) ==> #[trigger] replay_items(c, cell_items(f, cfg, cells)).cells[k] == key_colour(
                f,
                cfg,
                k,
            ),
        forall|k: (int, int)|
            !(paints_key(f, cfg, (f.width * f.height) as int, k) && listed(
                cells,
                (k.0 - cfg.x_offset) / 10,
                (k.1 - cfg.y_offset) / 10,
            )) && c.cells.dom().contains(k) ==> #[trigger] replay_items(
                c,
                cell_items(f, cfg, cells),
            ).cells[k] == c.cells[k],
    decreases cells.len(),
{
    let n = (f.width * f.height) as int;
    assert(n >= 0) by (nonlinear_arith)
        requires
            0 <= (f.width as int),
            0 <= (f.height as int),
            n == (f.width as int) * (f.height as int),
    ;
    if cells.len() == 0 {
        assert(cell_items(f, cfg, cells) =~= Seq::<Seq<u8>>::empty());
        assert(replay_items(c, Seq::<Seq<u8>>::empty()) == c);
        assert(forall|col: int, row: int| !listed(cells, col, row));
    } else {
        let cells0 = cells.drop_last();
        let cr = cells.last();
        assert(cells_in_range(f, cells0)) by {
            assert(forall|j: int| 0 <= j < cells0.len() ==> #[trigger] cells0[j] == cells[j]);
        }
        lemma_replay_cell_list(f, cfg, c, cells0);
        assert(cell_items(f, cfg, cells) =~= cell_items(f, cfg, cells0).push(
            cell_content(f, cfg, cr.0, cr.1),
        ));
        lemma_replay_items_snoc(c, cell_items(f, cfg, cells0), cell_content(f, cfg, cr.0, cr.1));
        let state0 = replay_items(c, cell_items(f, cfg, cells0));
        lemma_anchor_bounds(f, cfg, cr.0, cr.1);
        lemma_replay_cell_item(f, cfg, cr.0, cr.1, state0);
        lemma_cell_painted_on_char(state0.cells, f, cfg, cr.0, cr.1, n);
        assert forall|col: int, row: int| #[trigger]
            listed(cells, col, row) == (listed(cells0, col, row) || (col, row) == cr) by {
            if listed(cells0, col, row) {
                let j = choose|j: int| 0 <= j < cells0.len() && cells0[j] == (col, row);
                assert(cells[j] == (col, row));
            }
            if (col, row) == cr {
                assert(cells[cells.len() - 1] == (col, row));
            }
            if listed(cells, col, row) {
                let j = choose|j: int| 0 <= j < cells.len() && cells[j] == (col, row);
                if j < cells.len() - 1 {
                    assert(cells0[j] == (col, row));
                }
            }
        }
    }
}

/// Offset correctness for any transmission order: the painters may send the
/// emitted cell items interleaved across chunks, shuffled, and repeatedly —
/// replaying the items of any cell list that covers every occupied cell
/// yields the same final canvas as the full dialect.
pub proof fn lemma_offset_any_order_matches_full(
    f: Frame,
    cfg: ImageConfig,
    c0: Canvas,
    cells: Seq<(int, int)>,
)
    requires
        c0.ox == 0,
        c0.oy == 0,
        f.width + cfg.x_offset <= 10000,
        f.height + cfg.y_offset <= 10000,
        cells_in_range(f, cells),
        forall|col: int, row: int|
            0 <= col < cells_w(f) && 0 <= row < cells_h(f) && #[trigger] cell_occupied(
                f,
                cfg,
                col,
                row,
            ) ==> listed(cells, col, row),
    ensures
        replay_items(c0, cell_items(f, cfg, cells)).cells == replay_items(
            c0,
            full_cmds(f, cfg),
        ).cells,
{
    let w = f.width as int;
    let h = f.height as int;
    let n = (f.width * f.height) as int;
    assert(n >= 0 && n == w * h) by (nonlinear_arith)
        requires
            0 <= w,
            0 <= h,
            n == w * h,
    ;
    lemma_replay_full(f, cfg, c0, n);
    lemma_painted_on_char(c0.cells, f, cfg, n);
    lemma_replay_cell_list(f, cfg, c0, cells);
    assert forall|k: (int, int)| #[trigger]
        paints_key(f, cfg, n, k) implies listed(
        cells,
        (k.0 - cfg.x_offset) / 10,
        (k.1 - cfg.y_offset) / 10,
    ) by {
        let px = k.0 - cfg.x_offset;
        let py = k.1 - cfg.y_offset;
        lemma_cell_bound(px, w);
        lemma_cell_bound(py, h);
        let i = py * w + px;
        assert(0 <= i < w * h) by (nonlinear_arith)
            requires
                0 <= px < w,
                0 <= py < h,
                i == py * w + px,
        ;
        vstd::arithmetic::div_mod::lemma_fundamental_div_mod_converse(i, w, py, px);
        assert(cell_hit(f, cfg, px / 10, py / 10, i));
        lemma_occupied_iff(f, cfg, px / 10, py / 10, n);
        assert(cell_occupied(f, cfg, px / 10, py / 10));
    }
    let left = replay_items(c0, cell_items(f, cfg, cells)).cells;
    let right = painted_on(c0.cells, f, cfg, n);
    assert forall|k: (int, int)| #[trigger] left.dom().contains(k) == right.dom().contains(
        k,
    ) by {}
    assert forall|k: (int, int)| #[trigger] left.dom().contains(k) implies left[k] == right[k] by {
        if paints_key(f, cfg, n, k) {
        } else {
            assert(c0.cells.dom().contains(k));
        }
    }
    assert(left =~= right);
}

/// The occupied cells among the first `m`, in row-major order.
pub open spec fn occupied_cells_upto(f: Frame, cfg: ImageConfig, m: int) -> Seq<(int, int)>
    decreases m,
{
    if m <= 0 {
        Seq::empty()
    } else {
        let rest = occupied_cells_upto(f, cfg, m - 1);
        let col = (m - 1) % cells_w(f);
        let row = (m - 1) / cells_w(f);
        if cell_occupied(f, cfg, col, row) {
            rest.push((col, row))
        } else {
            rest
        }
    }
}

/// Every occupied cell of the grid, in row-major order.
pub open spec fn occupied_cells(f: Frame, cfg: ImageConfig) -> Seq<(int, int)> {
    occupied_cells_upto(f, cfg, cells_w(f) * cells_h(f))
}

proof fn lemma_enumeration_upto(f: Frame, cfg: ImageConfig, m: int)
    requires
        0 <= m <= cells_w(f) * cells_h(f),
    ensures
        cell_items(f, cfg, occupied_cells_upto(f, cfg, m)) == offset_cells_upto(f, cfg, m),
        cells_in_range(f, occupied_cells_upto(f, cfg, m)),
        forall|col: int, row: int|
            0 <= col < cells_w(f) && 0 <= row < cells_h(f) && #[trigger] cell_occupied(
                f,
                cfg,
                col,
                row,
            ) && row * cells_w(f) + col < m ==> listed(occupied_cells_upto(f, cfg, m), col, row),
    decreases m,
{
    if m == 0 {
        assert(cell_items(f, cfg, occupied_cells_upto(f, cfg, 0)) =~= offset_cells_upto(
            f,
            cfg,
            0,
        ));
    } else {
        lemma_enumeration_upto(f, cfg, m - 1);
        lemma_row_bound(m - 1, cells_w(f), cells_h(f));
        vstd::arithmetic::div_mod::lemma_fundamental_div_mod(m - 1, cells_w(f));
        let col = (m - 1) % cells_w(f);
        let row = (m - 1) / cells_w(f);
        let rest = occupied_cells_upto(f, cfg, m - 1);
        assert(row * cells_w(f) + col == m - 1) by {
            assert(m - 1 == cells_w(f) * ((m - 1) / cells_w(f)) + ((m - 1) % cells_w(f)));
        }
        if cell_occupied(f, cfg, col, row) {
            assert(cell_items(f, cfg, rest.push((col, row))) =~= cell_items(f, cfg, rest).push(
                cell_content(f, cfg, col, row),
            ));
            assert(cells_in_range(f, rest.push((col, row)))) by {
                assert(forall|j: int|
                    0 <= j < rest.len() ==> #[trigger] rest.push((col, row))[j] == rest[j]);
            }
        }
        assert forall|c2: int, r2: int|
            0 <= c2 < cells_w(f) && 0 <= r2 < cells_h(f) && #[trigger] cell_occupied(
                f,
                cfg,
                c2,
                r2,
            ) && r2 * cells_w(f) + c2 < m implies listed(
            occupied_cells_upto(f, cfg, m),
            c2,
            r2,
        ) by {
            if r2 * cells_w(f) + c2 < m - 1 {
                let j = choose|j: int| 0 <= j < rest.len() && rest[j] == (c2, r2);
                assert(occupied_cells_upto(f, cfg, m)[j] == (c2, r2));
            } else {
                lemma_index_unique(c2, r2, col, row, cells_w(f));
                assert((c2, r2) == (col, row));
                assert(occupied_cells_upto(f, cfg, m)[rest.len() as int] == (col, row));
            }
        }
    }
}

/// The emitted offset items are exactly the items of the occupied cells, in
/// row-major order, and those cells cover every occupied cell of the grid.
pub proof fn lemma_offset_cells_enumeration(f: Frame, cfg: ImageConfig)
    ensures
        cell_items(f, cfg, occupied_cells(f, cfg)) == offset_cells(f, cfg),
        cells_in_range(f, occupied_cells(f, cfg)),
        forall|col: int, row: int|
            0 <= col < cells_w(f) && 0 <= row < cells_h(f) && #[trigger] cell_occupied(
                f,
                cfg,
                col,
                row,
            ) ==> listed(occupied_cells(f, cfg), col, row),
{
    let m = cells_w(f) * cells_h(f);
    assert(m >= 0) by (nonlinear_arith)
        requires
            0 <= cells_w(f),
            0 <= cells_h(f),
            m == cells_w(f) * cells_h(f),
    ;
    lemma_enumeration_upto(f, cfg, m);
    assert forall|col: int, row: int|
        0 <= col < cells_w(f) && 0 <= row < cells_h(f) && #[trigger] cell_occupied(
            f,
            cfg,
            col,
            row,
        ) implies listed(occupied_cells(f, cfg), col, row) by {
        assert(row * cells_w(f) + col < m) by (nonlinear_arith)
            requires
                0 <= col < cells_w(f),
                0 <= row < cells_h(f),
                m == cells_w(f) * cells_h(f),
        ;
    }
}

proof fn lemma_cell_content_injective(f: Frame, cfg: ImageConfig, c1: (int, int), c2: (int, int))
    requires
        f.width + cfg.x_offset <= 10000,
        f.height + cfg.y_offset <= 10000,
        0 <= c1.0 < cells_w(f),
        0 <= c1.1 < cells_h(f),
        0 <= c2.0 < cells_w(f),
        0 <= c2.1 < cells_h(f),
        cell_content(f, cfg, c1.0, c1.1) == cell_content(f, cfg, c2.0, c2.1),
    ensures
        c1 == c2,
{
    lemma_anchor_bounds(f, cfg, c1.0, c1.1);
    lemma_anchor_bounds(f, cfg, c2.0, c2.1);
    lemma_split_cell_content(f, cfg, c1.0, c1.1);
    lemma_split_cell_content(f, cfg, c2.0, c2.1);
    assert(split_lines(cell_content(f, cfg, c1.0, c1.1))[0] == anchor_line(cfg, c1.0, c1.1));
    assert(split_lines(cell_content(f, cfg, c2.0, c2.1))[0] == anchor_line(cfg, c2.0, c2.1));
    assert(anchor_line(cfg, c1.0, c1.1) == anchor_line(cfg, c2.0, c2.1));
    lemma_parse_anchor_line(cfg, c1.0, c1.1);
    lemma_parse_anchor_line(cfg, c2.0, c2.1);
    assert(c1.0 * 10 + cfg.x_offset == c2.0 * 10 + cfg.x_offset);
    assert(c1.1 * 10 + cfg.y_offset == c2.1 * 10 + cfg.y_offset);
}

/// Offset correctness for shuffled streams: replaying the emitted cell
/// items in any order — any sequence holding exactly the emitted items —
/// yields the same final canvas as the full dialect.
pub proof fn lemma_offset_shuffled_matches_full(
    f: Frame,
    cfg: ImageConfig,
    c0: Canvas,
    s: Seq<Seq<u8>>,
)
    requires
        c0.ox == 0,
        c0.oy == 0,
        f.width + cfg.x_offset <= 10000,
        f.height + cfg.y_offset <= 10000,
        s.to_multiset() == offset_cells(f, cfg).to_multiset(),
    ensures
        replay_items(c0, s).cells == replay_items(c0, full_cmds(f, cfg)).cells,
{
    broadcast use vstd::seq_lib::group_to_multiset_ensures;

    lemma_offset_cells_enumeration(f, cfg);
    let oc = occupied_cells(f, cfg);
    let cells = Seq::new(
        s.len(),
        |j: int|
            choose|cr: (int, int)|
                0 <= cr.0 < cells_w(f) && 0 <= cr.1 < cells_h(f) && cell_content(
                    f,
                    cfg,
                    cr.0,
                    cr.1,
                ) == s[j],
    );
    assert forall|j: int| 0 <= j < cells.len() implies 0 <= (#[trigger] cells[j]).0 < cells_w(f)
        && 0 <= cells[j].1 < cells_h(f) && cell_content(f, cfg, cells[j].0, cells[j].1)
        == s[j] by {
        assert(s.contains(s[j]));
        assert(s.to_multiset().count(s[j]) > 0);
        assert(offset_cells(f, cfg).contains(s[j]));
        let i = choose|i: int| 0 <= i < offset_cells(f, cfg).len() && offset_cells(f, cfg)[i]
            == s[j];
        assert(cell_items(f, cfg, oc)[i] == s[j]);
        assert(cell_content(f, cfg, oc[i].0, oc[i].1) == s[j]);
        assert(0 <= oc[i].0 < cells_w(f) && 0 <= oc[i].1 < cells_h(f));
        assert(exists|cr: (int, int)|
            0 <= cr.0 < cells_w(f) && 0 <= cr.1 < cells_h(f) && cell_content(f, cfg, cr.0, cr.1)
                == s[j]);
        assert(cells[j] == (choose|cr: (int, int)|
            0 <= cr.0 < cells_w(f) && 0 <= cr.1 < cells_h(f) && cell_content(f, cfg, cr.0, cr.1)
                == s[j]));
    }
    assert(cell_items(f, cfg, cells) =~= s);
    assert forall|col: int, row: int|
        0 <= col < cells_w(f) && 0 <= row < cells_h(f) && #[trigger] cell_occupied(
            f,
            cfg,
            col,
            row,
        ) implies listed(cells, col, row) by {
        assert(listed(oc, col, row));
        let i = choose|i: int| 0 <= i < oc.len() && oc[i] == (col, row);
        assert(cell_items(f, cfg, oc)[i] == cell_content(f, cfg, col, row));
        assert(offset_cells(f, cfg).contains(cell_content(f, cfg, col, row)));
        assert(offset_cells(f, cfg).to_multiset().count(cell_content(f, cfg, col, row)) > 0);
        assert(s.contains(cell_content(f, cfg, col, row)));
        let j = choose|j: int| 0 <= j < s.len() && s[j] == cell_content(f, cfg, col, row);
        lemma_cell_content_injective(f, cfg, cells[j], (col, row));
        assert(cells[j] == (col, row));
    }
    lemma_offset_any_order_matches_full(f, cfg, c0, cells);
}

/// Offset correctness: replaying the offset-dialect stream against the
/// reference server yields the same final canvas as replaying the
/// full-dialect stream for the same frame and config — both paint exactly
/// the visible pixels, at their absolute positions, with their colour text.
pub proof fn lemma_offset_matches_full(f: Frame, cfg: ImageConfig, c0: Canvas)
    requires
        c0.ox == 0,
        c0.oy == 0,
        f.width + cfg.x_offset <= 10000,
        f.height + cfg.y_offset <= 10000,
    ensures
        replay_items(c0, offset_cells(f, cfg)).cells == replay_items(c0, full_cmds(f, cfg)).cells,
        replay_items(c0, full_cmds(f, cfg)).cells == painted_on(
            c0.cells,
            f,
            cfg,
            (f.width * f.height) as int,
        ),
{
    let w = f.width as int;
    let h = f.height as int;
    let n = (f.width * f.height) as int;
    let m = cells_w(f) * cells_h(f);
    assert(n == w * h);
    assert(n >= 0) by (nonlinear_arith)
        requires
            0 <= (f.width as int),
            0 <= (f.height as int),
            n == (f.width as int) * (f.height as int),
    ;
    assert(m >= 0) by (nonlinear_arith)
        requires
            0 <= cells_w(f),
            0 <= cells_h(f),
            m == cells_w(f) * cells_h(f),
    ;
    lemma_replay_full(f, cfg, c0, n);
    lemma_replay_offset(f, cfg, c0, m);
    lemma_painted_on_char(c0.cells, f, cfg, n);
    lemma_cells_painted_on_char(c0.cells, f, cfg, m);
    assert forall|k: (int, int)| #[trigger]
        paints_key(f, cfg, n, k) == cells_paint_key(f, cfg, m, k) by {
        let px = k.0 - cfg.x_offset;
        let py = k.1 - cfg.y_offset;
        if 0 <= px < w && 0 <= py < h {
            assert(py * w + px < w * h) by (nonlinear_arith)
                requires
                    0 <= px < w,
                    0 <= py < h,
            ;
            lemma_cell_bound(px, w);
            lemma_cell_bound(py, h);
            assert((py / 10) * cells_w(f) + px / 10 < cells_w(f) * cells_h(f))
                by (nonlinear_arith)
                requires
                    0 <= px / 10 < cells_w(f),
                    0 <= py / 10 < cells_h(f),
            ;
        }
    }
    let full = painted_on(c0.cells, f, cfg, n);
    let off = cells_painted_on(c0.cells, f, cfg, m);
    assert forall|k: (int, int)| #[trigger] off.dom().contains(k) == full.dom().contains(k) by {}
    assert forall|k: (int, int)| #[trigger]
        off.dom().contains(k) implies off[k] == full[k] by {
        if paints_key(f, cfg, n, k) {
        } else {
            assert(c0.cells.dom().contains(k));
        }
    }
    assert(off =~= full);
}

/// The same law for the raw single-stream bytes: splitting either dialect's
/// concatenated output into lines and replaying them against the reference
/// server leaves the same final canvas.
pub proof fn lemma_offset_stream_matches_full(f: Frame, cfg: ImageConfig, c0: Canvas)
    requires
        c0.ox == 0,
        c0.oy == 0,
        f.width + cfg.x_offset <= 10000,
        f.height + cfg.y_offset <= 10000,
    ensures
        replay(c0, split_lines(offset_cells(f, cfg).flatten())).cells == replay(
            c0,
            split_lines(full_cmds(f, cfg).flatten()),
        ).cells,
{
    let n = (f.width * f.height) as int;
    let m = cells_w(f) * cells_h(f);
    assert(n >= 0) by (nonlinear_arith)
        requires
            0 <= (f.width as int),
            0 <= (f.height as int),
            n == (f.width as int) * (f.height as int),
    ;
    assert(m >= 0) by (nonlinear_arith)
        requires
            0 <= cells_w(f),
            0 <= cells_h(f),
            m == cells_w(f) * cells_h(f),
    ;
    lemma_parse_empty();
    assert(full_cmds(f, cfg).flatten() =~= full_cmds_upto(f, cfg, n).flatten()
        + Seq::<u8>::empty());
    lemma_split_full_stream(f, cfg, n, Seq::<u8>::empty());
    assert(split_lines(Seq::<u8>::empty()) =~= seq![Seq::<u8>::empty()]);
    lemma_replay_concat(c0, full_cmd_lines(f, cfg, n), seq![Seq::<u8>::empty()]);
    lemma_replay_full_lines(f, cfg, c0, n);
    let full_end = Canvas { ox: 0, oy: 0, cells: painted_on(c0.cells, f, cfg, n) };
    assert(replay(full_end, seq![Seq::<u8>::empty()]) == full_end) by {
        assert(seq![Seq::<u8>::empty()].first() == Seq::<u8>::empty());
        assert(seq![Seq::<u8>::empty()].drop_first() =~= Seq::<Seq<u8>>::empty());
        assert(replay_line(full_end, Seq::<u8>::empty()) == full_end);
        assert(replay(full_end, Seq::<Seq<u8>>::empty()) == full_end);
    }
    assert(offset_cells(f, cfg).flatten() =~= offset_cells_upto(f, cfg, m).flatten()
        + Seq::<u8>::empty());
    lemma_split_offset_stream(f, cfg, m, Seq::<u8>::empty());
    lemma_replay_concat(c0, offset_lines_upto(f, cfg, m), seq![Seq::<u8>::empty()]);
    lemma_replay_offset_lines(f, cfg, c0, m);
    let off_mid = replay(c0, offset_lines_upto(f, cfg, m));
    assert(replay(off_mid, seq![Seq::<u8>::empty()]) == off_mid) by {
        assert(seq![Seq::<u8>::empty()].first() == Seq::<u8>::empty());
        assert(seq![Seq::<u8>::empty()].drop_first() =~= Seq::<Seq<u8>>::empty());
        assert(replay_line(off_mid, Seq::<u8>::empty()) == off_mid);
        assert(replay(off_mid, Seq::<Seq<u8>>::empty()) == off_mid);
    }
    lemma_painted_on_char(c0.cells, f, cfg, n);
    lemma_cells_painted_on_char(c0.cells, f, cfg, m);
    let w = f.width as int;
    let h = f.height as int;
    assert forall|k: (int, int)| #[trigger]
        paints_key(f, cfg, n, k) == cells_paint_key(f, cfg, m, k) by {
        let px = k.0 - cfg.x_offset;
        let py = k.1 - cfg.y_offset;
        if 0 <= px < w && 0 <= py < h {
            assert(py * w + px < w * h) by (nonlinear_arith)
                requires
                    0 <= px < w,
                    0 <= py < h,
            ;
            lemma_cell_bound(px, w);
            lemma_cell_bound(py, h);
            assert((py / 10) * cells_w(f) + px / 10 < cells_w(f) * cells_h(f))
                by (nonlinear_arith)
                requires
                    0 <= px / 10 < cells_w(f),
                    0 <= py / 10 < cells_h(f),
            ;
        }
    }
    let full = painted_on(c0.cells, f, cfg, n);
    let off = cells_painted_on(c0.cells, f, cfg, m);
    assert forall|k: (int, int)| #[trigger] off.dom().contains(k) == full.dom().contains(k) by {}
    assert forall|k: (int, int)| #[trigger]
        off.dom().contains(k) implies off[k] == full[k] by {
        if paints_key(f, cfg, n, k) {
        } else {
            assert(c0.cells.dom().contains(k));
        }
    }
    assert(off =~= full);
}

} // verus!
