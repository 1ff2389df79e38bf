use vstd::prelude::*;

verus! {

// ---------------------------------------------------------------------------
// Numbers in protocol replies.
// ---------------------------------------------------------------------------

/// The base-10 value of a digit string (most significant first).
pub open spec fn dec_val(s: Seq<u8>) -> int
    decreases s.len(),
{
    if s.len() == 0 {
        0
    } else {
        dec_val(s.drop_last()) * 10 + (s.last() - 48)
    }
}

/// Whether every byte is a decimal digit.
pub open spec fn all_dec_digits(s: Seq<u8>) -> bool {
    forall|i: int| 0 <= i < s.len() ==> 48 <= #[trigger] s[i] <= 57
}

/// What a decimal number token parses to: at least one digit, digits only,
/// and a value that fits u32.
pub open spec fn parse_dec(s: Seq<u8>) -> Option<u32> {
    if s.len() >= 1 && all_dec_digits(s) && dec_val(s) <= u32::MAX {
        Some(dec_val(s) as u32)
    } else {
        None
    }
}

/// The value of one hexadecimal digit, or 16 for other bytes.
pub open spec fn hex_digit_val(b: u8) -> int {
    if 48 <= b <= 57 {
        b - 48
    } else if 97 <= b <= 102 {
        b - 87
    } else if 65 <= b <= 70 {
        b - 55
    } else {
        16
    }
}

/// Whether every byte is a hexadecimal digit (either case).
pub open spec fn all_hex_digits(s: Seq<u8>) -> bool {
    forall|i: int| 0 <= i < s.len() ==> hex_digit_val(#[trigger] s[i]) < 16
}

/// The base-16 value of a hex digit string (most significant first).
pub open spec fn hex_val(s: Seq<u8>) -> int
    decreases s.len(),
{
    if s.len() == 0 {
        0
    } else {
        hex_val(s.drop_last()) * 16 + hex_digit_val(s.last())
    }
}

/// What a hexadecimal number token parses to.
pub open spec fn parse_hex(s: Seq<u8>) -> Option<u32> {
    if s.len() >= 1 && all_hex_digits(s) && hex_val(s) <= u32::MAX {
        Some(hex_val(s) as u32)
    } else {
        None
    }
}

proof fn lemma_dec_val_monotone(s: Seq<u8>, i: int)
    requires
        0 <= i <= s.len(),
        all_dec_digits(s),
    ensures
        dec_val(s.take(i)) <= dec_val(s),
    decreases s.len() - i,
{
    if i < s.len() {
        lemma_dec_val_monotone(s, i + 1);
        assert(s.take(i + 1).drop_last() =~= s.take(i));
        assert(s.take(i + 1).last() == s[i]);
        assert(dec_val(s.take(i + 1)) == dec_val(s.take(i)) * 10 + (s[i] - 48));
        assert(dec_val(s.take(i)) >= 0) by {
            assert(forall|j: int| 0 <= j < s.take(i).len() ==> #[trigger] s.take(i)[j] == s[j]);
            lemma_dec_val_nonneg(s.take(i));
        }
    } else {
        assert(s.take(i) =~= s);
    }
}

proof fn lemma_dec_val_nonneg(s: Seq<u8>)
    requires
        all_dec_digits(s),
    ensures
        dec_val(s) >= 0,
    decreases s.len(),
{
    if s.len() > 0 {
        assert(all_dec_digits(s.drop_last())) by {
            assert(forall|i: int|
                0 <= i < s.drop_last().len() ==> #[trigger] s.drop_last()[i] == s[i]);
        }
        lemma_dec_val_nonneg(s.drop_last());
    }
}

proof fn lemma_hex_val_monotone(s: Seq<u8>, i: int)
    requires
        0 <= i <= s.len(),
        all_hex_digits(s),
    ensures
        hex_val(s.take(i)) <= hex_val(s),
    decreases s.len() - i,
{
    if i < s.len() {
        lemma_hex_val_monotone(s, i + 1);
        assert(s.take(i + 1).drop_last() =~= s.take(i));
        assert(s.take(i + 1).last() == s[i]);
        assert(hex_val(s.take(i + 1)) == hex_val(s.take(i)) * 16 + hex_digit_val(s[i]));
        assert(hex_val(s.take(i)) >= 0) by {
            lemma_hex_val_nonneg(s.take(i));
        }
    } else {
        assert(s.take(i) =~= s);
    }
}

proof fn lemma_hex_val_nonneg(s: Seq<u8>)
    ensures
        hex_val(s) >= 0,
    decreases s.len(),
{
    if s.len() > 0 {
        lemma_hex_val_nonneg(s.drop_last());
    }
}

/// Parse a base-10 u32 token.
pub fn parse_dec_exec(s: &Vec<u8>) -> (r: Option<u32>)
    ensures
        r == parse_dec(s@),
{
    if s.len() == 0 {
        return None;
    }
    let mut acc: u64 = 0;
    let mut i: usize = 0;
    while i < s.len()
        invariant
            i <= s@.len(),
            s@.len() >= 1,
            all_dec_digits(s@.take(i as int)),
            acc == dec_val(s@.take(i as int)),
            acc <= u32::MAX,
        decreases s@.len() - i,
    {
        let b = s[i];
        if b < 48 || b > 57 {
            proof {
                assert(!all_dec_digits(s@));
            }
            return None;
        }
        acc = acc * 10 + ((b - 48) as u64);
        proof {
            assert(s@.take(i + 1).drop_last() =~= s@.take(i as int));
            assert(s@.take(i + 1).last() == s@[i as int]);
        }
        i += 1;
        if acc > 0xffff_ffff {
            proof {
                if all_dec_digits(s@) {
                    lemma_dec_val_monotone(s@, i as int);
                }
            }
            return None;
        }
    }
    proof {
        assert(s@.take(s@.len() as int) =~= s@);
    }
    Some(acc as u32)
}

/// Parse a base-16 u32 token (either letter case).
pub fn parse_hex_exec(s: &Vec<u8>) -> (r: Option<u32>)
    ensures
        r == parse_hex(s@),
{
    if s.len() == 0 {
        return None;
    }
    let mut acc: u64 = 0;
    let mut i: usize = 0;
    while i < s.len()
        invariant
            i <= s@.len(),
            s@.len() >= 1,
            all_hex_digits(s@.take(i as int)),
            acc == hex_val(s@.take(i as int)),
            acc <= u32::MAX,
        decreases s@.len() - i,
    {
        let b = s[i];
        let d: u64 = if 48 <= b && b <= 57 {
            (b - 48) as u64
        } else if 97 <= b && b <= 102 {
            (b - 87) as u64
        } else if 65 <= b && b <= 70 {
            (b - 55) as u64
        } else {
            proof {
                assert(hex_digit_val(s@[i as int]) == 16);
                assert(!all_hex_digits(s@));
            }
            return None;
        };
        acc = acc * 16 + d;
        proof {
            assert(s@.take(i + 1).drop_last() =~= s@.take(i as int));
            assert(s@.take(i + 1).last() == s@[i as int]);
        }
        i += 1;
        if acc > 0xffff_ffff {
            proof {
                if all_hex_digits(s@) {
                    lemma_hex_val_monotone(s@, i as int);
                }
            }
            return None;
        }
    }
    proof {
        assert(s@.take(s@.len() as int) =~= s@);
    }
    Some(acc as u32)
}

// ---------------------------------------------------------------------------
// Splitting a reply line into tokens.
// ---------------------------------------------------------------------------

/// Trailing whitespace of a reply line.
pub open spec fn is_trailing_ws(b: u8) -> bool {
    b == 32 || b == 9 || b == 10 || b == 13
}

/// The line without its trailing whitespace.
pub open spec fn trim_end(s: Seq<u8>) -> Seq<u8>
    decreases s.len(),
{
    if s.len() > 0 && is_trailing_ws(s.last()) {
        trim_end(s.drop_last())
    } else {
        s
    }
}

/// The space-separated tokens of `s`; one more token than there are spaces.
pub open spec fn split_tokens(s: Seq<u8>) -> Seq<Seq<u8>>
    decreases s.len(),
{
    if s.len() == 0 {
        seq![Seq::<u8>::empty()]
    } else if s[0] == 32 {
        seq![Seq::<u8>::empty()] + split_tokens(s.drop_first())
    } else {
        let rest = split_tokens(s.drop_first());
        seq![seq![s[0]] + rest[0]] + rest.drop_first()
    }
}

pub(crate) proof fn lemma_tokens_no_space(cur: Seq<u8>)
    requires
        forall|i: int| 0 <= i < cur.len() ==> cur[i] != 32,
    ensures
        split_tokens(cur) == seq![cur],
    decreases cur.len(),
{
    if cur.len() > 0 {
        lemma_tokens_no_space(cur.drop_first());
        let rest = split_tokens(cur.drop_first());
        assert(seq![cur[0]] + rest[0] =~= cur);
        assert(rest.drop_first() =~= Seq::<Seq<u8>>::empty());
        assert(split_tokens(cur) =~= seq![cur]);
    } else {
        assert(cur =~= Seq::<u8>::empty());
        assert(split_tokens(cur) =~= seq![cur]);
    }
}

pub(crate) proof fn lemma_tokens_cons(cur: Seq<u8>, rest: Seq<u8>)
    requires
        forall|i: int| 0 <= i < cur.len() ==> cur[i] != 32,
    ensures
        split_tokens(cur + seq![32u8] + rest) == seq![cur] + split_tokens(rest),
    decreases cur.len(),
{
    let s = cur + seq![32u8] + rest;
    if cur.len() == 0 {
        assert(s =~= seq![32u8] + rest);
        assert(s[0] == 32);
        assert(s.drop_first() =~= rest);
        assert(cur =~= Seq::<u8>::empty());
        assert(split_tokens(s) =~= seq![cur] + split_tokens(rest));
    } else {
        assert(s[0] == cur[0]);
        assert(s.drop_first() =~= cur.drop_first() + seq![32u8] + rest);
        lemma_tokens_cons(cur.drop_first(), rest);
        let r2 = split_tokens(s.drop_first());
        assert(r2[0] == cur.drop_first());
        assert(seq![s[0]] + cur.drop_first() =~= cur);
        assert(r2.drop_first() =~= split_tokens(rest));
        assert(split_tokens(s) =~= seq![cur] + split_tokens(rest));
    }
}

/// Drop a line's trailing whitespace.
fn trim_end_exec(v: &Vec<u8>) -> (t: Vec<u8>)
    ensures
        t@ == trim_end(v@),
{
    let mut end: usize = v.len();
    proof {
        assert(v@.take(v@.len() as int) =~= v@);
    }
    while end > 0 && (v[end - 1] == 32 || v[end - 1] == 9 || v[end - 1] == 10 || v[end - 1] == 13)
        invariant
            end <= v@.len(),
            trim_end(v@) == trim_end(v@.take(end as int)),
        decreases end,
    {
        proof {
            assert(v@.take(end as int).drop_last() =~= v@.take(end - 1));
        }
        end -= 1;
    }
    let mut t: Vec<u8> = Vec::new();
    let mut i: usize = 0;
    while i < end
        invariant
            i <= end <= v@.len(),
            t@ == v@.subrange(0, i as int),
        decreases end - i,
    {
        t.push(v[i]);
        proof {
            assert(t@ =~= v@.subrange(0, i + 1));
        }
        i += 1;
    }
    proof {
        assert(t@ =~= v@.take(end as int));
        if end > 0 {
            assert(!is_trailing_ws(v@.take(end as int).last()));
        } else {
            assert(v@.take(0) =~= Seq::<u8>::empty());
        }
        assert(trim_end(v@.take(end as int)) == v@.take(end as int));
    }
    t
}

/// Split a line at every space.
fn split_tokens_exec(v: &Vec<u8>) -> (toks: Vec<Vec<u8>>)
    ensures
        toks.deep_view() == split_tokens(v@),
{
    let mut toks: Vec<Vec<u8>> = Vec::new();
    let mut cur: Vec<u8> = Vec::new();
    let mut i: usize = 0;
    proof {
        assert(toks.deep_view() =~= Seq::<Seq<u8>>::empty());
        assert(cur@ + v@.skip(0) =~= v@);
        assert(toks.deep_view() + split_tokens(cur@ + v@.skip(0)) =~= split_tokens(v@));
    }
    while i < v.len()
        invariant
            i <= v@.len(),
            forall|j: int| 0 <= j < cur@.len() ==> cur@[j] != 32,
            split_tokens(v@) == toks.deep_view() + split_tokens(cur@ + v@.skip(i as int)),
        decreases v@.len() - i,
    {
        let b = v[i];
        let ghost toks_before = toks.deep_view();
        let ghost cur_before = cur@;
        if b == 32 {
            proof {
                assert(cur_before + v@.skip(i as int) =~= cur_before + seq![32u8] + v@.skip(i + 1));
                lemma_tokens_cons(cur_before, v@.skip(i + 1));
            }
            let done = cur;
            cur = Vec::new();
            toks.push(done);
            proof {
                assert(toks.deep_view() =~~= toks_before.push(cur_before));
                assert(cur@ + v@.skip(i + 1) =~= v@.skip(i + 1));
                assert((toks_before + seq![cur_before]) + split_tokens(v@.skip(i + 1))
                    =~= toks_before + (seq![cur_before] + split_tokens(v@.skip(i + 1))));
            }
        } else {
            cur.push(b);
            proof {
                assert(cur@ + v@.skip(i + 1) =~= cur_before + v@.skip(i as int));
            }
        }
        i += 1;
    }
    proof {
        assert(cur@ + v@.skip(v@.len() as int) =~= cur@);
        lemma_tokens_no_space(cur@);
    }
    let ghost toks_before = toks.deep_view();
    let ghost cur_before = cur@;
    toks.push(cur);
    proof {
        assert(toks.deep_view() =~~= toks_before.push(cur_before));
        assert(toks.deep_view() =~= split_tokens(v@));
    }
    toks
}

// ---------------------------------------------------------------------------
// Reply parsing.
// ---------------------------------------------------------------------------

/// What a `SIZE <w> <h>` reply parses to: the first token is ignored, the
/// next two must be decimal numbers; anything after them is ignored.
pub open spec fn size_reply(s: Seq<u8>) -> Option<(u32, u32)> {
    let toks = split_tokens(trim_end(s));
    if toks.len() >= 3 && parse_dec(toks[1]) is Some && parse_dec(toks[2]) is Some {
        Some((parse_dec(toks[1])->Some_0, parse_dec(toks[2])->Some_0))
    } else {
        None
    }
}

/// What a `PX <x> <y> <rrggbb>` reply parses to: the first three tokens are
/// ignored, the fourth is the colour in hex, split into its three channels.
pub open spec fn px_reply(s: Seq<u8>) -> Option<(u8, u8, u8)> {
    let toks = split_tokens(trim_end(s));
    if toks.len() >= 4 && parse_hex(toks[3]) is Some {
        let c = parse_hex(toks[3])->Some_0 as int;
        Some(((c / 65536 % 256) as u8, (c / 256 % 256) as u8, (c % 256) as u8))
    } else {
        None
    }
}

/// Parse the reply to a `SIZE` request into the canvas width and height.
pub fn parse_screen_size(line: &Vec<u8>) -> (r: Option<(u32, u32)>)
    ensures
        r == size_reply(line@),
{
    let trimmed = trim_end_exec(line);
    let toks = split_tokens_exec(&trimmed);
    if toks.len() < 3 {
        return None;
    }
    proof {
        assert(toks@[1]@ == split_tokens(trim_end(line@))[1]);
        assert(toks@[2]@ == split_tokens(trim_end(line@))[2]);
    }
    let w = parse_dec_exec(&toks[1]);
    let h = parse_dec_exec(&toks[2]);
    match (w, h) {
        (Some(w), Some(h)) => Some((w, h)),
        _ => None,
    }
}

/// Parse the reply to a `PX x y` read request into the pixel's colour.
pub fn parse_px_reply(line: &Vec<u8>) -> (r: Option<(u8, u8, u8)>)
    ensures
        r == px_reply(line@),
{
    let trimmed = trim_end_exec(line);
    let toks = split_tokens_exec(&trimmed);
    if toks.len() < 4 {
        return None;
    }
    proof {
        assert(toks@[3]@ == split_tokens(trim_end(line@))[3]);
    }
    match parse_hex_exec(&toks[3]) {
        Some(c) => {
            proof {
                assert((c >> 16) & 0xff == c / 65536 % 256 && (c >> 16) & 0xff <= 0xff) by (bit_vector);
                assert((c >> 8) & 0xff == c / 256 % 256 && (c >> 8) & 0xff <= 0xff) by (bit_vector);
                assert(c & 0xff == c % 256 && c & 0xff <= 0xff) by (bit_vector);
            }
            Some((((c >> 16) & 0xff) as u8, ((c >> 8) & 0xff) as u8, (c & 0xff) as u8))
        },
        None => None,
    }
}

// ---------------------------------------------------------------------------
// Request building.
// ---------------------------------------------------------------------------

/// The base-10 rendering of any nonnegative number, shortest form.
pub open spec fn dec_str(n: int) -> Seq<u8>
    decreases n,
{
    if n < 10 {
        seq![(48 + n) as u8]
    } else {
        dec_str(n / 10).push((48 + n % 10) as u8)
    }
}

/// Render a u32 in base 10.
pub fn u32_to_dec(n: u32) -> (v: Vec<u8>)
    ensures
        v@ == dec_str(n as int),
{
    if n < 10 {
        let mut v: Vec<u8> = Vec::new();
        v.push(48 + (n as u8));
        proof {
            assert(v@ =~= dec_str(n as int));
        }
        return v;
    }
    let mut v: Vec<u8> = Vec::new();
    let mut m = n;
    proof {
        assert(dec_str(n as int) =~= dec_str(n as int) + v@);
    }
    while m > 0
        invariant
            m > 0 ==> dec_str(n as int) == dec_str(m as int) + v@,
            m == 0 ==> dec_str(n as int) == v@,
        decreases m,
    {
        let d = 48 + ((m % 10) as u8);
        let ghost v_before = v@;
        v.insert(0, d);
        proof {
            assert(v@ =~= seq![d] + v_before);
            if m >= 10 {
                assert(dec_str(m as int) == dec_str(m as int / 10).push(d));
                assert(dec_str(m as int / 10).push(d) + v_before =~= dec_str(m as int / 10) + (
                seq![d] + v_before));
            } else {
                assert(dec_str(m as int) =~= seq![d]);
            }
        }
        m = m / 10;
    }
    v
}

/// A `PX <x> <y>\n` read request.
pub open spec fn px_request(x: int, y: int) -> Seq<u8> {
    seq![80u8, 88u8, 32u8] + dec_str(x) + seq![32u8] + dec_str(y) + seq![10u8]
}

/// Build the `PX x y\n` request that asks the server for one pixel.
pub fn build_px_request(x: u32, y: u32) -> (v: Vec<u8>)
    ensures
        v@ == px_request(x as int, y as int),
{
    let mut v: Vec<u8> = Vec::new();
    v.push(80);
    v.push(88);
    v.push(32);
    let xd = u32_to_dec(x);
    v.extend_from_slice(xd.as_slice());
    v.push(32);
    let yd = u32_to_dec(y);
    v.extend_from_slice(yd.as_slice());
    v.push(10);
    proof {
        assert(v@ =~= px_request(x as int, y as int));
    }
    v
}

} // verus!
