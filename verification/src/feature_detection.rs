use vstd::prelude::*;
use crate::image_handler::BinaryFormat;

verus! {

/// Detected feature set of a pixelflut server.
pub struct Features {
    /// Canvas width.
    pub width: u32,
    /// Canvas height.
    pub height: u32,
    /// Whether the `OFFSET` command is supported, going by the HELP text.
    pub offset: bool,
    /// Whether the `PX x y gg` command is supported, going by the HELP text.
    pub px_gray: bool,
    /// Which binary format the server offers, if any.
    pub binary: Option<BinaryFormat>,
}

// ---------------------------------------------------------------------------
// Byte-level text helpers for the ASCII HELP protocol.
// ---------------------------------------------------------------------------

/// ASCII lowercase of one byte.
pub open spec fn ascii_lower(b: u8) -> u8 {
    if 65 <= b && b <= 90 {
        (b + 32) as u8
    } else {
        b
    }
}

/// ASCII lowercase of a byte string.
pub open spec fn lower_seq(s: Seq<u8>) -> Seq<u8> {
    s.map_values(|b: u8| ascii_lower(b))
}

/// Blank bytes that `HELP` lines may start with.
pub open spec fn is_blank(b: u8) -> bool {
    b == 32 || b == 9 || b == 13
}

/// The string without its leading blanks.
pub open spec fn trim_start(s: Seq<u8>) -> Seq<u8>
    decreases s.len(),
{
    if s.len() > 0 && is_blank(s[0]) {
        trim_start(s.drop_first())
    } else {
        s
    }
}

/// Whether `p` is a prefix of `s`.
pub open spec fn starts_with(s: Seq<u8>, p: Seq<u8>) -> bool {
    p.len() <= s.len() && s.subrange(0, p.len() as int) == p
}

/// Whether `p` occurs in `s` at position `i`.
pub open spec fn contains_at(s: Seq<u8>, p: Seq<u8>, i: int) -> bool {
    0 <= i && i + p.len() <= s.len() && s.subrange(i, i + p.len()) == p
}

/// Whether `p` occurs anywhere in `s`.
pub open spec fn contains_seq(s: Seq<u8>, p: Seq<u8>) -> bool {
    exists|i: int| contains_at(s, p, i)
}

/// The lines of `s`, split at every newline byte; one more line than there
/// are newlines, possibly empty.
pub open spec fn split_lines(s: Seq<u8>) -> Seq<Seq<u8>>
    decreases s.len(),
{
    if s.len() == 0 {
        seq![Seq::<u8>::empty()]
    } else if s[0] == 10 {
        seq![Seq::<u8>::empty()] + split_lines(s.drop_first())
    } else {
        let rest = split_lines(s.drop_first());
        seq![seq![s[0]] + rest[0]] + rest.drop_first()
    }
}

// ---------------------------------------------------------------------------
// The capability keywords, and what a HELP text advertises.
// ---------------------------------------------------------------------------

/// `offset`
pub open spec fn kw_offset() -> Seq<u8> {
    seq![111u8, 102u8, 102u8, 115u8, 101u8, 116u8]
}

/// `px x y gg`
pub open spec fn kw_px_gray() -> Seq<u8> {
    seq![112u8, 120u8, 32u8, 120u8, 32u8, 121u8, 32u8, 103u8, 103u8]
}

/// `grayscale`
pub open spec fn kw_grayscale() -> Seq<u8> {
    seq![103u8, 114u8, 97u8, 121u8, 115u8, 99u8, 97u8, 108u8, 101u8]
}

/// `pbxyrgba`
pub open spec fn kw_pb_short() -> Seq<u8> {
    seq![112u8, 98u8, 120u8, 121u8, 114u8, 103u8, 98u8, 97u8]
}

/// `pbxxyyrgba`
pub open spec fn kw_pb_long() -> Seq<u8> {
    seq![112u8, 98u8, 120u8, 120u8, 121u8, 121u8, 114u8, 103u8, 98u8, 97u8]
}

/// One lowercased, left-trimmed line advertises `OFFSET`.
pub open spec fn line_offset(l: Seq<u8>) -> bool {
    starts_with(trim_start(lower_seq(l)), kw_offset())
}

/// One line advertises the gray pixel command.
pub open spec fn line_gray(l: Seq<u8>) -> bool {
    starts_with(trim_start(lower_seq(l)), kw_px_gray()) || starts_with(
        trim_start(lower_seq(l)),
        kw_grayscale(),
    )
}

/// One line advertises the binary pixel command.
pub open spec fn line_binary(l: Seq<u8>) -> bool {
    contains_seq(trim_start(lower_seq(l)), kw_pb_short()) || contains_seq(
        trim_start(lower_seq(l)),
        kw_pb_long(),
    )
}

/// Some line of the HELP text advertises `OFFSET`.
pub open spec fn help_offset(s: Seq<u8>) -> bool {
    exists|i: int| 0 <= i < split_lines(s).len() && line_offset(#[trigger] split_lines(s)[i])
}

/// Some line of the HELP text advertises the gray pixel command.
pub open spec fn help_gray(s: Seq<u8>) -> bool {
    exists|i: int| 0 <= i < split_lines(s).len() && line_gray(#[trigger] split_lines(s)[i])
}

/// Some line of the HELP text advertises the binary pixel command.
pub open spec fn help_binary(s: Seq<u8>) -> bool {
    exists|i: int| 0 <= i < split_lines(s).len() && line_binary(#[trigger] split_lines(s)[i])
}

// ---------------------------------------------------------------------------
// Executable text helpers.
// ---------------------------------------------------------------------------

pub(crate) proof fn lemma_split_no_nl(cur: Seq<u8>)
    requires
        forall|i: int| 0 <= i < cur.len() ==> cur[i] != 10,
    ensures
        split_lines(cur) == seq![cur],
    decreases cur.len(),
{
    if cur.len() > 0 {
        lemma_split_no_nl(cur.drop_first());
        let rest = split_lines(cur.drop_first());
        assert(seq![cur[0]] + rest[0] =~= cur);
        assert(rest.drop_first() =~= Seq::<Seq<u8>>::empty());
        assert(split_lines(cur) =~= seq![cur]);
    } else {
        assert(cur =~= Seq::<u8>::empty());
        assert(split_lines(cur) =~= seq![cur]);
    }
}

pub(crate) proof fn lemma_split_cons(cur: Seq<u8>, rest: Seq<u8>)
    requires
        forall|i: int| 0 <= i < cur.len() ==> cur[i] != 10,
    ensures
        split_lines(cur + seq![10u8] + rest) == seq![cur] + split_lines(rest),
    decreases cur.len(),
{
    let s = cur + seq![10u8] + rest;
    if cur.len() == 0 {
        assert(s =~= seq![10u8] + rest);
        assert(s[0] == 10);
        assert(s.drop_first() =~= rest);
        assert(cur =~= Seq::<u8>::empty());
        assert(split_lines(s) =~= seq![cur] + split_lines(rest));
    } else {
        assert(s[0] == cur[0]);
        assert(s.drop_first() =~= cur.drop_first() + seq![10u8] + rest);
        lemma_split_cons(cur.drop_first(), rest);
        let r2 = split_lines(s.drop_first());
        assert(r2[0] == cur.drop_first());
        assert(seq![s[0]] + cur.drop_first() =~= cur);
        assert(r2.drop_first() =~= split_lines(rest));
        assert(split_lines(s) =~= seq![cur] + split_lines(rest));
    }
}

/// Split a byte string at every newline.
fn split_lines_exec(v: &Vec<u8>) -> (lines: Vec<Vec<u8>>)
    ensures
        lines.deep_view() == split_lines(v@),
{
    let mut lines: Vec<Vec<u8>> = Vec::new();
    let mut cur: Vec<u8> = Vec::new();
    let mut i: usize = 0;
    proof {
        assert(lines.deep_view() =~= Seq::<Seq<u8>>::empty());
        assert(cur@ + v@.skip(0) =~= v@);
        assert(lines.deep_view() + split_lines(cur@ + v@.skip(0)) =~= split_lines(v@));
    }
    while i < v.len()
        invariant
            i <= v@.len(),
            forall|j: int| 0 <= j < cur@.len() ==> cur@[j] != 10,
            split_lines(v@) == lines.deep_view() + split_lines(cur@ + v@.skip(i as int)),
        decreases v@.len() - i,
    {
        let b = v[i];
        let ghost lines_before = lines.deep_view();
        let ghost cur_before = cur@;
        if b == 10 {
            proof {
                assert(cur_before + v@.skip(i as int) =~= cur_before + seq![10u8] + v@.skip(
                    i + 1,
                ));
                lemma_split_cons(cur_before, v@.skip(i + 1));
            }
            let done = cur;
            cur = Vec::new();
            lines.push(done);
            proof {
                assert(lines.deep_view() =~~= lines_before.push(cur_before));
                assert(cur@ + v@.skip(i + 1) =~= v@.skip(i + 1));
                assert(lines.deep_view() + split_lines(v@.skip(i + 1)) =~= (lines_before + seq![
                    cur_before,
                ]) + split_lines(v@.skip(i + 1)));
                assert((lines_before + seq![cur_before]) + split_lines(v@.skip(i + 1))
                    =~= lines_before + (seq![cur_before] + split_lines(v@.skip(i + 1))));
            }
        } else {
            cur.push(b);
            proof {
                assert(cur@ + v@.skip(i + 1) =~= cur_before + v@.skip(i as int));
            }
        }
        i += 1;
    }
    proof {
        assert(cur@ + v@.skip(v@.len() as int) =~= cur@);
        lemma_split_no_nl(cur@);
    }
    let ghost lines_before = lines.deep_view();
    let ghost cur_before = cur@;
    lines.push(cur);
    proof {
        assert(lines.deep_view() =~~= lines_before.push(cur_before));
        assert(lines.deep_view() =~= split_lines(v@));
    }
    lines
}

/// ASCII-lowercase a line and drop its leading blanks.
fn lower_trim(line: &Vec<u8>) -> (t: Vec<u8>)
    ensures
        t@ == trim_start(lower_seq(line@)),
{
    let mut low: Vec<u8> = Vec::new();
    let mut i: usize = 0;
    while i < line.len()
        invariant
            i <= line@.len(),
            low@ == lower_seq(line@).take(i as int),
        decreases line@.len() - i,
    {
        let b = line[i];
        low.push(
            if 65 <= b && b <= 90 {
                b + 32
            } else {
                b
            },
        );
        proof {
            assert(low@ =~= lower_seq(line@).take(i + 1));
        }
        i += 1;
    }
    proof {
        assert(lower_seq(line@).take(line@.len() as int) =~= lower_seq(line@));
    }
    let mut j: usize = 0;
    while j < low.len() && (low[j] == 32 || low[j] == 9 || low[j] == 13)
        invariant
            j <= low@.len(),
            low@ == lower_seq(line@),
            trim_start(low@) == trim_start(low@.skip(j as int)),
        decreases low@.len() - j,
    {
        proof {
            assert(low@.skip(j as int).drop_first() =~= low@.skip(j + 1));
        }
        j += 1;
    }
    let mut t: Vec<u8> = Vec::new();
    let mut c: usize = j;
    while c < low.len()
        invariant
            j <= c <= low@.len(),
            t@ == low@.subrange(j as int, c as int),
        decreases low@.len() - c,
    {
        t.push(low[c]);
        proof {
            assert(t@ =~= low@.subrange(j as int, c + 1));
        }
        c += 1;
    }
    proof {
        assert(t@ =~= low@.skip(j as int));
        if j < low@.len() {
            assert(!is_blank(low@.skip(j as int)[0]));
            assert(trim_start(low@.skip(j as int)) == low@.skip(j as int));
        } else {
            assert(low@.skip(j as int) =~= Seq::<u8>::empty());
        }
    }
    t
}

/// Whether `p` is a prefix of `s`.
fn starts_with_exec(s: &Vec<u8>, p: &[u8]) -> (r: bool)
    ensures
        r == starts_with(s@, p@),
{
    if p.len() > s.len() {
        return false;
    }
    let mut i: usize = 0;
    while i < p.len()
        invariant
            i <= p@.len(),
            p@.len() <= s@.len(),
            forall|j: int| 0 <= j < i ==> s@[j] == p@[j],
        decreases p@.len() - i,
    {
        if s[i] != p[i] {
            proof {
                assert(s@.subrange(0, p@.len() as int)[i as int] != p@[i as int]);
            }
            return false;
        }
        i += 1;
    }
    proof {
        assert(s@.subrange(0, p@.len() as int) =~= p@);
    }
    true
}

/// Whether `p` occurs in `s` at position `at`.
fn matches_at(s: &Vec<u8>, p: &[u8], at: usize) -> (r: bool)
    requires
        at + p@.len() <= s@.len(),
    ensures
        r == contains_at(s@, p@, at as int),
{
    let n = s.len();
    let mut i: usize = 0;
    while i < p.len()
        invariant
            i <= p@.len(),
            at + p@.len() <= s@.len(),
            s@.len() == n,
            forall|j: int| 0 <= j < i ==> s@[at + j] == p@[j],
        decreases p@.len() - i,
    {
        if s[at + i] != p[i] {
            proof {
                assert(s@.subrange(at as int, at + p@.len())[i as int] != p@[i as int]);
            }
            return false;
        }
        i += 1;
    }
    proof {
        assert(s@.subrange(at as int, at + p@.len()) =~= p@);
    }
    true
}

/// Whether `p` occurs anywhere in `s`.
fn contains_exec(s: &Vec<u8>, p: &[u8]) -> (r: bool)
    ensures
        r == contains_seq(s@, p@),
{
    if p.len() > s.len() {
        proof {
            assert(forall|i: int| !contains_at(s@, p@, i));
        }
        return false;
    }
    if p.len() == 0 {
        proof {
            assert(s@.subrange(0, 0) =~= p@);
            assert(contains_at(s@, p@, 0));
        }
        return true;
    }
    let n = s.len();
    let mut i: usize = 0;
    while i <= s.len() - p.len()
        invariant
            1 <= p@.len() <= s@.len(),
            s@.len() == n,
            i <= s@.len() - p@.len() + 1,
            forall|j: int| 0 <= j < i ==> !contains_at(s@, p@, j),
        decreases s@.len() - p@.len() + 1 - i,
    {
        if matches_at(s, p, i) {
            return true;
        }
        i += 1;
    }
    proof {
        assert(forall|j: int| j > s@.len() - p@.len() ==> !contains_at(s@, p@, j));
    }
    false
}

/// Read a server's HELP text: each lowercased, left-trimmed line may
/// advertise the `OFFSET`, gray or binary commands. Unrecognised lines are
/// ignored. The given canvas size is carried into the result.
pub fn feature_detection(help: &Vec<u8>, width: u32, height: u32) -> (f: Features)
    ensures
        f.width == width,
        f.height == height,
        f.offset == help_offset(help@),
        f.px_gray == help_gray(help@),
        f.binary == if help_binary(help@) {
            Some(BinaryFormat::CoordLERGBA)
        } else {
            None::<BinaryFormat>
        },
{
    let p_offset: [u8; 6] = [111, 102, 102, 115, 101, 116];
    let p_px_gray: [u8; 9] = [112, 120, 32, 120, 32, 121, 32, 103, 103];
    let p_grayscale: [u8; 9] = [103, 114, 97, 121, 115, 99, 97, 108, 101];
    let p_pb_short: [u8; 8] = [112, 98, 120, 121, 114, 103, 98, 97];
    let p_pb_long: [u8; 10] = [112, 98, 120, 120, 121, 121, 114, 103, 98, 97];
    proof {
        assert(p_offset@ =~= kw_offset());
        assert(p_px_gray@ =~= kw_px_gray());
        assert(p_grayscale@ =~= kw_grayscale());
        assert(p_pb_short@ =~= kw_pb_short());
        assert(p_pb_long@ =~= kw_pb_long());
    }
    let lines = split_lines_exec(help);
    let ghost ls = split_lines(help@);
    let mut offset = false;
    let mut px_gray = false;
    let mut binary = false;
    let mut i: usize = 0;
    while i < lines.len()
        invariant
            i <= ls.len(),
            lines.deep_view() == ls,
            lines@.len() == ls.len(),
            p_offset@ == kw_offset(),
            p_px_gray@ == kw_px_gray(),
            p_grayscale@ == kw_grayscale(),
            p_pb_short@ == kw_pb_short(),
            p_pb_long@ == kw_pb_long(),
            offset == exists|j: int| 0 <= j < i && line_offset(#[trigger] ls[j]),
            px_gray == exists|j: int| 0 <= j < i && line_gray(#[trigger] ls[j]),
            binary == exists|j: int| 0 <= j < i && line_binary(#[trigger] ls[j]),
        decreases ls.len() - i,
    {
        let t = lower_trim(&lines[i]);
        proof {
            assert(lines@[i as int]@ == ls[i as int]);
        }
        let l_offset = starts_with_exec(&t, p_offset.as_slice());
        let l_gray = starts_with_exec(&t, p_px_gray.as_slice()) || starts_with_exec(
            &t,
            p_grayscale.as_slice(),
        );
        let l_binary = contains_exec(&t, p_pb_short.as_slice()) || contains_exec(
            &t,
            p_pb_long.as_slice(),
        );
        proof {
            assert(l_offset == line_offset(ls[i as int]));
            assert(l_gray == line_gray(ls[i as int]));
            assert(l_binary == line_binary(ls[i as int]));
        }
        offset = offset || l_offset;
        px_gray = px_gray || l_gray;
        binary = binary || l_binary;
        i += 1;
    }
    Features {
        width,
        height,
        offset,
        px_gray,
        binary: if binary {
            Some(BinaryFormat::CoordLERGBA)
        } else {
            None
        },
    }
}

} // verus!
