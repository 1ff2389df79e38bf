use vstd::prelude::*;

verus! {

/// An IP address as plain bytes: four for v4, sixteen for v6.
#[derive(Clone, Copy, PartialEq, Eq, Debug)]
pub enum Addr {
    V4([u8; 4]),
    V6([u8; 16]),
}

/// Why a host string was rejected.
#[derive(Clone, Copy, PartialEq, Eq, Structural, Debug)]
pub enum HostError {
    /// The string holds no host before the port separator.
    NoHost,
    /// The string holds no `:port`, or the port is not a number below 65536.
    NoPort,
    /// Resolution produced no address.
    NoAddress,
}

/// A paintable target: its resolved addresses, an optional interface or
/// address to bind to, and the TCP port.
#[derive(Clone)]
pub struct Host {
    pub addr: Vec<Addr>,
    pub bind: Option<String>,
    pub port: u16,
}

// ---------------------------------------------------------------------------
// The `host:port` grammar.
// ---------------------------------------------------------------------------

/// The first position at or after `i` where byte `b` occurs, or the length.
pub open spec fn idx_of(s: Seq<u8>, b: u8, i: int) -> int
    decreases s.len() - i,
{
    if i < 0 || i >= s.len() {
        s.len() as int
    } else if s[i] == b {
        i
    } else {
        idx_of(s, b, i + 1)
    }
}

/// A port token: a decimal number below 65536.
pub open spec fn parse_port(s: Seq<u8>) -> Option<u16> {
    match crate::wire::parse_dec(s) {
        Some(v) => if v <= 65535 {
            Some(v as u16)
        } else {
            None
        },
        None => None,
    }
}

/// What a `host:port` string parses to: either `[v6literal]:port`, where the
/// host is the text inside the brackets, or `host:port` split at the first
/// colon. The host must be nonempty and the port a number below 65536.
pub open spec fn host_port_spec(s: Seq<u8>) -> Option<(Seq<u8>, u16)> {
    if s.len() > 0 && s[0] == 91 {
        let close = idx_of(s, 93, 0);
        if close < s.len() && close + 1 < s.len() && s[close + 1] == 58 {
            let host = s.subrange(1, close);
            match parse_port(s.skip(close + 2)) {
                Some(p) => if host.len() > 0 {
                    Some((host, p))
                } else {
                    None
                },
                None => None,
            }
        } else {
            None
        }
    } else {
        let colon = idx_of(s, 58, 0);
        if colon < s.len() {
            let host = s.take(colon);
            match parse_port(s.skip(colon + 1)) {
                Some(p) => if host.len() > 0 {
                    Some((host, p))
                } else {
                    None
                },
                None => None,
            }
        } else {
            None
        }
    }
}

/// Find the first occurrence of `b` in `v`, or its length.
fn find_byte(v: &Vec<u8>, b: u8) -> (r: usize)
    ensures
        r == idx_of(v@, b, 0),
        r <= v@.len(),
        r < v@.len() ==> v@[r as int] == b,
{
    let mut i: usize = 0;
    while i < v.len()
        invariant
            i <= v@.len(),
            idx_of(v@, b, 0) == idx_of(v@, b, i as int),
        decreases v@.len() - i,
    {
        if v[i] == b {
            return i;
        }
        i += 1;
    }
    i
}

/// Copy `v[from..to]`.
fn slice_range(v: &Vec<u8>, from: usize, to: usize) -> (r: Vec<u8>)
    requires
        from <= to <= v@.len(),
    ensures
        r@ == v@.subrange(from as int, to as int),
{
    let mut r: Vec<u8> = Vec::new();
    let mut i: usize = from;
    while i < to
        invariant
            from <= i <= to <= v@.len(),
            r@ == v@.subrange(from as int, i as int),
        decreases to - i,
    {
        r.push(v[i]);
        proof {
            assert(r@ =~= v@.subrange(from as int, i + 1));
        }
        i += 1;
    }
    r
}

/// Parse the port token.
fn parse_port_exec(v: &Vec<u8>) -> (r: Option<u16>)
    ensures
        r == parse_port(v@),
{
    match crate::wire::parse_dec_exec(v) {
        Some(p) => if p <= 65535 {
            Some(p as u16)
        } else {
            None
        },
        None => None,
    }
}

/// Split a `host:port` string into the host text (brackets stripped) and the
/// port number.
pub fn parse_host_port(s: &Vec<u8>) -> (r: Result<(Vec<u8>, u16), HostError>)
    ensures
        r matches Ok(hp) ==> host_port_spec(s@) == Some((hp.0@, hp.1)),
        r is Err <==> host_port_spec(s@) is None,
{
    if s.len() > 0 && s[0] == 91 {
        let close = find_byte(s, 93);
        if close < s.len() && close + 1 < s.len() && s[close + 1] == 58 {
            proof {
                assert(close >= 1) by {
                    assert(s@[0] == 91);
                    assert(s@[close as int] == 93);
                }
            }
            let host = slice_range(s, 1, close);
            match parse_port_exec(&slice_range(s, close + 2, s.len())) {
                Some(p) => {
                    proof {
                        assert(s@.subrange(close + 2, s@.len() as int) =~= s@.skip(close + 2));
                    }
                    if host.len() > 0 {
                        Ok((host, p))
                    } else {
                        Err(HostError::NoHost)
                    }
                },
                None => {
                    proof {
                        assert(s@.subrange(close + 2, s@.len() as int) =~= s@.skip(close + 2));
                    }
                    Err(HostError::NoPort)
                },
            }
        } else {
            Err(HostError::NoPort)
        }
    } else {
        let colon = find_byte(s, 58);
        if colon < s.len() {
            let host = slice_range(s, 0, colon);
            proof {
                assert(s@.subrange(0, colon as int) =~= s@.take(colon as int));
            }
            match parse_port_exec(&slice_range(s, colon + 1, s.len())) {
                Some(p) => {
                    proof {
                        assert(s@.subrange(colon + 1, s@.len() as int) =~= s@.skip(colon + 1));
                    }
                    if host.len() > 0 {
                        Ok((host, p))
                    } else {
                        Err(HostError::NoHost)
                    }
                },
                None => {
                    proof {
                        assert(s@.subrange(colon + 1, s@.len() as int) =~= s@.skip(colon + 1));
                    }
                    Err(HostError::NoPort)
                },
            }
        } else {
            Err(HostError::NoPort)
        }
    }
}

// ---------------------------------------------------------------------------
// IPv4 literals.
// ---------------------------------------------------------------------------

/// What an IPv4 literal parses to: four dot-separated decimal numbers, each
/// of them at most 255.
pub open spec fn ipv4_spec(s: Seq<u8>) -> Option<[u8; 4]> {
    let toks = dot_tokens(s);
    if toks.len() == 4 && octet(toks[0]) is Some && octet(toks[1]) is Some && octet(toks[2])
        is Some && octet(toks[3]) is Some {
        Some(
            [
                octet(toks[0])->Some_0,
                octet(toks[1])->Some_0,
                octet(toks[2])->Some_0,
                octet(toks[3])->Some_0,
            ],
        )
    } else {
        None
    }
}

/// One address byte: a decimal number up to 255.
pub open spec fn octet(s: Seq<u8>) -> Option<u8> {
    match crate::wire::parse_dec(s) {
        Some(v) => if v <= 255 {
            Some(v as u8)
        } else {
            None
        },
        None => None,
    }
}

/// The dot-separated tokens of `s`.
pub open spec fn dot_tokens(s: Seq<u8>) -> Seq<Seq<u8>>
    decreases s.len(),
{
    if s.len() == 0 {
        seq![Seq::<u8>::empty()]
    } else if s[0] == 46 {
        seq![Seq::<u8>::empty()] + dot_tokens(s.drop_first())
    } else {
        let rest = dot_tokens(s.drop_first());
        seq![seq![s[0]] + rest[0]] + rest.drop_first()
    }
}

proof fn lemma_dot_tokens_no_dot(cur: Seq<u8>)
    requires
        forall|i: int| 0 <= i < cur.len() ==> cur[i] != 46,
    ensures
        dot_tokens(cur) == seq![cur],
    decreases cur.len(),
{
    if cur.len() > 0 {
        lemma_dot_tokens_no_dot(cur.drop_first());
        let rest = dot_tokens(cur.drop_first());
        assert(seq![cur[0]] + rest[0] =~= cur);
        assert(rest.drop_first() =~= Seq::<Seq<u8>>::empty());
        assert(dot_tokens(cur) =~= seq![cur]);
    } else {
        assert(cur =~= Seq::<u8>::empty());
        assert(dot_tokens(cur) =~= seq![cur]);
    }
}

proof fn lemma_dot_tokens_cons(cur: Seq<u8>, rest: Seq<u8>)
    requires
        forall|i: int| 0 <= i < cur.len() ==> cur[i] != 46,
    ensures
        dot_tokens(cur + seq![46u8] + rest) == seq![cur] + dot_tokens(rest),
    decreases cur.len(),
{
    let s = cur + seq![46u8] + rest;
    if cur.len() == 0 {
        assert(s =~= seq![46u8] + rest);
        assert(s[0] == 46);
        assert(s.drop_first() =~= rest);
        assert(cur =~= Seq::<u8>::empty());
        assert(dot_tokens(s) =~= seq![cur] + dot_tokens(rest));
    } else {
        assert(s[0] == cur[0]);
        assert(s.drop_first() =~= cur.drop_first() + seq![46u8] + rest);
        lemma_dot_tokens_cons(cur.drop_first(), rest);
        let r2 = dot_tokens(s.drop_first());
        assert(r2[0] == cur.drop_first());
        assert(seq![s[0]] + cur.drop_first() =~= cur);
        assert(r2.drop_first() =~= dot_tokens(rest));
        assert(dot_tokens(s) =~= seq![cur] + dot_tokens(rest));
    }
}

/// Split a byte string at every dot.
fn dot_tokens_exec(v: &Vec<u8>) -> (toks: Vec<Vec<u8>>)
    ensures
        toks.deep_view() == dot_tokens(v@),
{
    let mut toks: Vec<Vec<u8>> = Vec::new();
    let mut cur: Vec<u8> = Vec::new();
    let mut i: usize = 0;
    proof {
        assert(toks.deep_view() =~= Seq::<Seq<u8>>::empty());
        assert(cur@ + v@.skip(0) =~= v@);
        assert(toks.deep_view() + dot_tokens(cur@ + v@.skip(0)) =~= dot_tokens(v@));
    }
    while i < v.len()
        invariant
            i <= v@.len(),
            forall|j: int| 0 <= j < cur@.len() ==> cur@[j] != 46,
            dot_tokens(v@) == toks.deep_view() + dot_tokens(cur@ + v@.skip(i as int)),
        decreases v@.len() - i,
    {
        let b = v[i];
        let ghost toks_before = toks.deep_view();
        let ghost cur_before = cur@;
        if b == 46 {
            proof {
                assert(cur_before + v@.skip(i as int) =~= cur_before + seq![46u8] + v@.skip(i + 1));
                lemma_dot_tokens_cons(cur_before, v@.skip(i + 1));
            }
            let done = cur;
            cur = Vec::new();
            toks.push(done);
            proof {
                assert(toks.deep_view() =~~= toks_before.push(cur_before));
                assert(cur@ + v@.skip(i + 1) =~= v@.skip(i + 1));
                assert((toks_before + seq![cur_before]) + dot_tokens(v@.skip(i + 1))
                    =~= toks_before + (seq![cur_before] + dot_tokens(v@.skip(i + 1))));
            }
        } else {
            cur.push(b);
            proof {
                assert(cur@ + v@.skip(i + 1) =~= cur_before + v@.skip(i as int));
            }
        }
        i += 1;
    }
    proof {
        assert(cur@ + v@.skip(v@.len() as int) =~= cur@);
        lemma_dot_tokens_no_dot(cur@);
    }
    let ghost toks_before = toks.deep_view();
    let ghost cur_before = cur@;
    toks.push(cur);
    proof {
        assert(toks.deep_view() =~~= toks_before.push(cur_before));
        assert(toks.deep_view() =~= dot_tokens(v@));
    }
    toks
}

fn octet_exec(v: &Vec<u8>) -> (r: Option<u8>)
    ensures
        r == octet(v@),
{
    match crate::wire::parse_dec_exec(v) {
        Some(p) => if p <= 255 {
            Some(p as u8)
        } else {
            None
        },
        None => None,
    }
}

/// Parse an IPv4 literal such as `203.0.113.9`.
pub fn parse_ipv4(host: &Vec<u8>) -> (r: Option<Addr>)
    ensures
        r matches Some(a) ==> (a matches Addr::V4(o) && ipv4_spec(host@) == Some(o)),
        r is None <==> ipv4_spec(host@) is None,
{
    let toks = dot_tokens_exec(host);
    if toks.len() != 4 {
        return None;
    }
    proof {
        assert(toks@[0]@ == dot_tokens(host@)[0]);
        assert(toks@[1]@ == dot_tokens(host@)[1]);
        assert(toks@[2]@ == dot_tokens(host@)[2]);
        assert(toks@[3]@ == dot_tokens(host@)[3]);
    }
    let o0 = octet_exec(&toks[0]);
    let o1 = octet_exec(&toks[1]);
    let o2 = octet_exec(&toks[2]);
    let o3 = octet_exec(&toks[3]);
    match (o0, o1, o2, o3) {
        (Some(a), Some(b), Some(c), Some(d)) => Some(Addr::V4([a, b, c, d])),
        _ => None,
    }
}

// ---------------------------------------------------------------------------
// Address policy and stream targets.
// ---------------------------------------------------------------------------

/// The v6 members of a resolved address list, in order.
pub open spec fn v6_only(s: Seq<Addr>) -> Seq<Addr>
    decreases s.len(),
{
    if s.len() == 0 {
        Seq::empty()
    } else {
        let rest = v6_only(s.drop_last());
        if s.last() is V6 {
            rest.push(s.last())
        } else {
            rest
        }
    }
}

/// Whether any address of the list is v6.
pub open spec fn has_v6(s: Seq<Addr>) -> bool {
    exists|i: int| 0 <= i < s.len() && s[i] is V6
}

proof fn lemma_v6_only_some(s: Seq<Addr>)
    requires
        has_v6(s),
    ensures
        v6_only(s).len() > 0,
    decreases s.len(),
{
    if s.last() is V6 {
    } else {
        let i = choose|i: int| 0 <= i < s.len() && s[i] is V6;
        assert(s.drop_last()[i] == s[i]);
        assert(has_v6(s.drop_last()));
        lemma_v6_only_some(s.drop_last());
    }
}

/// Apply the family policy: when v6 is available, use only v6; otherwise
/// keep everything.
pub fn prefer_ipv6(addrs: Vec<Addr>) -> (r: Vec<Addr>)
    ensures
        has_v6(addrs@) ==> r@ == v6_only(addrs@),
        !has_v6(addrs@) ==> r@ == addrs@,
        addrs@.len() > 0 ==> r@.len() > 0,
{
    let mut any_v6 = false;
    let mut kept: Vec<Addr> = Vec::new();
    let mut i: usize = 0;
    while i < addrs.len()
        invariant
            i <= addrs@.len(),
            any_v6 == exists|j: int| 0 <= j < i && addrs@[j] is V6,
            kept@ == v6_only(addrs@.take(i as int)),
        decreases addrs@.len() - i,
    {
        let a = addrs[i];
        let is6 = match a {
            Addr::V6(_) => true,
            Addr::V4(_) => false,
        };
        proof {
            assert(addrs@.take(i + 1).drop_last() =~= addrs@.take(i as int));
            assert(addrs@.take(i + 1).last() == addrs@[i as int]);
        }
        if is6 {
            any_v6 = true;
            kept.push(a);
        }
        i += 1;
    }
    proof {
        assert(addrs@.take(addrs@.len() as int) =~= addrs@);
    }
    if any_v6 {
        proof {
            if addrs@.len() > 0 {
                lemma_v6_only_some(addrs@);
            }
        }
        kept
    } else {
        proof {
            assert(!has_v6(addrs@));
        }
        addrs
    }
}

/// Whether an address is of the same family (v4 or v6) as `bind`.
pub open spec fn same_family(a: Addr, bind: Addr) -> bool {
    (a is V4) == (bind is V4)
}

/// Whether every resolved address shares the bind address's family.
pub open spec fn family_matches(addrs: Seq<Addr>, bind: Addr) -> bool {
    forall|i: int| 0 <= i < addrs.len() ==> same_family(#[trigger] addrs[i], bind)
}

/// Check a bind address given as an IP literal against the resolved list:
/// a stream can only be bound within its own address family.
pub fn bind_family_matches(addrs: &Vec<Addr>, bind: &Addr) -> (r: bool)
    ensures
        r == family_matches(addrs@, *bind),
{
    let bind_v4 = match bind {
        Addr::V4(_) => true,
        Addr::V6(_) => false,
    };
    let mut i: usize = 0;
    while i < addrs.len()
        invariant
            i <= addrs@.len(),
            bind_v4 == (*bind is V4),
            forall|j: int| 0 <= j < i ==> same_family(#[trigger] addrs@[j], *bind),
        decreases addrs@.len() - i,
    {
        let a_v4 = match addrs[i] {
            Addr::V4(_) => true,
            Addr::V6(_) => false,
        };
        if a_v4 != bind_v4 {
            proof {
                assert(!same_family(addrs@[i as int], *bind));
            }
            return false;
        }
        i += 1;
    }
    true
}

impl Host {
    /// The host holds at least one address to connect to.
    pub open spec fn wf(self) -> bool {
        self.addr@.len() > 0
    }

    /// Assemble a host from resolved addresses; fails when the list is empty.
    pub fn from_raw(addr: Vec<Addr>, port: u16, bind: Option<String>) -> (r: Result<
        Host,
        HostError,
    >)
        ensures
            r matches Ok(h) ==> h.addr@ == addr@ && h.port == port && h.bind == bind && h.wf(),
            r is Err <==> addr@.len() == 0,
            r is Err ==> r == Err::<Host, HostError>(HostError::NoAddress),
    {
        if addr.len() == 0 {
            Err(HostError::NoAddress)
        } else {
            Ok(Host { addr, bind, port })
        }
    }

    /// Pick the address for a new stream, uniformly at random.
    pub fn pick_addr(&self) -> (a: Addr)
        requires
            self.wf(),
        ensures
            exists|i: int| 0 <= i < self.addr@.len() && self.addr@[i] == a,
    {
        let mut rng = crate::rng::new_rng();
        let i = crate::rng::random_below(&mut rng, self.addr.len());
        let a = self.addr[i];
        proof {
            assert(self.addr@[i as int] == a);
        }
        a
    }
}

} // verus!
