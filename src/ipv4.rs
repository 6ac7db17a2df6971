use vstd::prelude::*;

verus! {

/// An IPv4 address as its four octets, most significant first.
#[derive(Clone, Copy, Debug, PartialEq, Eq, Hash, Structural)]
pub struct Ip4 {
    pub a: u8,
    pub b: u8,
    pub c: u8,
    pub d: u8,
}

/// First three octets of the overlay subnet 10.10.0.0/24.
pub const OVERLAY_A: u8 = 10;
pub const OVERLAY_B: u8 = 10;
pub const OVERLAY_C: u8 = 0;

/// How many times the virtual interface is tried before giving up.
pub const MAX_TUN_ATTEMPTS: u32 = 20;

impl Ip4 {
    pub open spec fn spec_in_overlay(self) -> bool {
        self.a == OVERLAY_A && self.b == OVERLAY_B && self.c == OVERLAY_C
    }

    pub open spec fn spec_is_multicast(self) -> bool {
        224 <= self.a <= 239
    }

    pub open spec fn spec_is_broadcast(self) -> bool {
        (self.a == 255 && self.b == 255 && self.c == 255 && self.d == 255) || (self.spec_in_overlay() && self.d
            == 255)
    }

    pub fn new(a: u8, b: u8, c: u8, d: u8) -> (r: Ip4)
        ensures
            r == (Ip4 { a, b, c, d }),
    {
        Ip4 { a, b, c, d }
    }

    pub fn from_octets(o: [u8; 4]) -> (r: Ip4)
        ensures
            r == (Ip4 { a: o[0], b: o[1], c: o[2], d: o[3] }),
    {
        Ip4 { a: o[0], b: o[1], c: o[2], d: o[3] }
    }

    pub fn octets(&self) -> (r: [u8; 4])
        ensures
            r@ == seq![self.a, self.b, self.c, self.d],
    {
        let r = [self.a, self.b, self.c, self.d];
        assert(r@ =~= seq![self.a, self.b, self.c, self.d]);
        r
    }

    /// Whether the address lies in the overlay subnet 10.10.0.0/24.
    pub fn in_overlay(&self) -> (r: bool)
        ensures
            r == self.spec_in_overlay(),
    {
        self.a == OVERLAY_A && self.b == OVERLAY_B && self.c == OVERLAY_C
    }

    /// Whether the address is a multicast group (224.0.0.0/4).
    pub fn is_multicast(&self) -> (r: bool)
        ensures
            r == self.spec_is_multicast(),
    {
        224 <= self.a && self.a <= 239
    }

    /// Whether the address is a broadcast address: the limited broadcast
    /// 255.255.255.255, or the overlay subnet's broadcast 10.10.0.255.
    pub fn is_broadcast(&self) -> (r: bool)
        ensures
            r == self.spec_is_broadcast(),
    {
        (self.a == 255 && self.b == 255 && self.c == 255 && self.d == 255) || (self.in_overlay() && self.d == 255)
    }
}

/// The address tried after `ip` when the interface could not be opened:
/// the last octet goes up by one, skipping 0 and 255.
pub open spec fn spec_next_candidate(ip: Ip4) -> Ip4 {
    Ip4 { d: if ip.d >= 254 { 1 } else { (ip.d + 1) as u8 }, ..ip }
}

pub fn next_candidate(ip: Ip4) -> (r: Ip4)
    ensures
        r == spec_next_candidate(ip),
{
    let d: u8 = if ip.d >= 254 { 1 } else { ip.d + 1 };
    Ip4 { d, ..ip }
}

/// The retry policy of opening the virtual interface: each failure either
/// names the next address to try or, after the last attempt, gives up.
pub struct TunRetry {
    pub current: Ip4,
    pub failures: u32,
}

impl TunRetry {
    pub open spec fn wf(&self) -> bool {
        self.failures < MAX_TUN_ATTEMPTS
    }

    pub fn new(first: Ip4) -> (r: TunRetry)
        ensures
            r.wf(),
            r.current == first,
            r.failures == 0,
    {
        TunRetry { current: first, failures: 0 }
    }

    /// Records that opening the interface on `self.current` failed.
    /// Returns the next address to try, or `None` once all attempts are used.
    pub fn on_failure(&mut self) -> (r: Option<Ip4>)
        requires
            old(self).wf(),
        ensures
            final(self).failures == old(self).failures + 1,
            old(self).failures + 1 >= MAX_TUN_ATTEMPTS ==> r is None && final(self).current == old(
                self,
            ).current,
            old(self).failures + 1 < MAX_TUN_ATTEMPTS ==> final(self).wf() && r == Some(
                spec_next_candidate(old(self).current),
            ) && final(self).current == spec_next_candidate(old(self).current),
    {
        self.failures = self.failures + 1;
        if self.failures >= MAX_TUN_ATTEMPTS {
            None
        } else {
            self.current = next_candidate(self.current);
            Some(self.current)
        }
    }
}

/// The decimal digit `d` (0 to 9) as a character.
pub open spec fn digit_char(d: int) -> char {
    if d == 0 {
        '0'
    } else if d == 1 {
        '1'
    } else if d == 2 {
        '2'
    } else if d == 3 {
        '3'
    } else if d == 4 {
        '4'
    } else if d == 5 {
        '5'
    } else if d == 6 {
        '6'
    } else if d == 7 {
        '7'
    } else if d == 8 {
        '8'
    } else {
        '9'
    }
}

/// An octet in decimal, without leading zeros.
pub open spec fn octet_text(v: u8) -> Seq<char> {
    if v < 10 {
        seq![digit_char(v as int)]
    } else if v < 100 {
        seq![digit_char(v as int / 10), digit_char(v as int % 10)]
    } else {
        seq![digit_char(v as int / 100), digit_char((v as int / 10) % 10), digit_char(v as int % 10)]
    }
}

/// The dotted-decimal text of an address, such as `10.10.0.2`.
pub open spec fn dotted(ip: Ip4) -> Seq<char> {
    octet_text(ip.a) + seq!['.'] + octet_text(ip.b) + seq!['.'] + octet_text(ip.c) + seq!['.']
        + octet_text(ip.d)
}

pub(crate) fn digit_str(d: u8) -> (r: &'static str)
    requires
        d < 10,
    ensures
        r@ == seq![digit_char(d as int)],
{
    proof {
        reveal_strlit("0");
        reveal_strlit("1");
        reveal_strlit("2");
        reveal_strlit("3");
        reveal_strlit("4");
        reveal_strlit("5");
        reveal_strlit("6");
        reveal_strlit("7");
        reveal_strlit("8");
        reveal_strlit("9");
    }
    if d == 0 {
        "0"
    } else if d == 1 {
        "1"
    } else if d == 2 {
        "2"
    } else if d == 3 {
        "3"
    } else if d == 4 {
        "4"
    } else if d == 5 {
        "5"
    } else if d == 6 {
        "6"
    } else if d == 7 {
        "7"
    } else if d == 8 {
        "8"
    } else {
        "9"
    }
}

fn push_octet(s: &mut String, v: u8)
    ensures
        final(s)@ == old(s)@ + octet_text(v),
{
    if v >= 100 {
        s.append(digit_str(v / 100));
    }
    if v >= 10 {
        s.append(digit_str((v / 10) % 10));
    }
    s.append(digit_str(v % 10));
    assert(final(s)@ =~= old(s)@ + octet_text(v));
}

impl Ip4 {
    /// The address in dotted-decimal form.
    pub fn to_text(&self) -> (r: String)
        ensures
            r@ == dotted(*self),
    {
        let dot = ".";
        proof {
            reveal_strlit(".");
        }
        let mut s = String::new();
        push_octet(&mut s, self.a);
        s.append(dot);
        push_octet(&mut s, self.b);
        s.append(dot);
        push_octet(&mut s, self.c);
        s.append(dot);
        push_octet(&mut s, self.d);
        assert(s@ =~= dotted(*self));
        s
    }
}

pub open spec fn is_digit(c: char) -> bool {
    '0' <= c <= '9'
}

/// `s` holds, from position `i`, the decimal text of `v`, and no digit follows it.
pub open spec fn octet_at(s: Seq<char>, i: int, v: u8) -> bool {
    let n = octet_text(v).len() as int;
    &&& 0 <= i
    &&& i + n <= s.len()
    &&& s.subrange(i, i + n) == octet_text(v)
    &&& (i + n == s.len() || !is_digit(s[i + n]))
}

proof fn lemma_digit_char(d: int)
    requires
        0 <= d < 10,
    ensures
        is_digit(digit_char(d)),
        digit_char(d) as int == '0' as int + d,
{
}

proof fn lemma_char_of_digit(c: char)
    requires
        is_digit(c),
    ensures
        c == digit_char(c as int - '0' as int),
{
}

proof fn lemma_octet_text(v: u8)
    ensures
        1 <= octet_text(v).len() <= 3,
        forall|k: int| 0 <= k < octet_text(v).len() ==> is_digit(#[trigger] octet_text(v)[k]),
        octet_text(v).len() > 1 ==> octet_text(v)[0] != '0',
{
    lemma_digit_char(v as int % 10);
    lemma_digit_char((v as int / 10) % 10);
    if v < 100 {
        lemma_digit_char(v as int / 10);
    } else {
        lemma_digit_char(v as int / 100);
    }
}

/// The value of a run of decimal digits.
pub open spec fn digits_value(w: Seq<char>) -> int
    decreases w.len(),
{
    if w.len() == 0 {
        0
    } else {
        digits_value(w.drop_last()) * 10 + (w.last() as int - '0' as int)
    }
}

fn is_digit_exec(c: char) -> (r: bool)
    ensures
        r == is_digit(c),
{
    c >= '0' && c <= '9'
}

proof fn lemma_digits_value_push(w: Seq<char>, c: char)
    ensures
        digits_value(w.push(c)) == digits_value(w) * 10 + (c as int - '0' as int),
{
    assert(w.push(c).drop_last() =~= w);
}

proof fn lemma_octet_value(v: u8)
    ensures
        digits_value(octet_text(v)) == v,
{
    let t = octet_text(v);
    reveal_with_fuel(digits_value, 4);
    lemma_digit_char(v as int % 10);
    lemma_digit_char((v as int / 10) % 10);
    if v < 10 {
        assert(t.drop_last() =~= Seq::<char>::empty());
    } else if v < 100 {
        lemma_digit_char(v as int / 10);
        assert(t.drop_last().drop_last() =~= Seq::<char>::empty());
        assert(t.drop_last() =~= seq![digit_char(v as int / 10)]);
    } else {
        lemma_digit_char(v as int / 100);
        assert(t.drop_last().drop_last().drop_last() =~= Seq::<char>::empty());
        assert(t.drop_last().drop_last() =~= seq![digit_char(v as int / 100)]);
        assert(t.drop_last() =~= seq![digit_char(v as int / 100), digit_char((v as int / 10) % 10)]);
    }
}

proof fn lemma_canonical_digits(w: Seq<char>)
    requires
        1 <= w.len() <= 3,
        forall|k: int| 0 <= k < w.len() ==> is_digit(#[trigger] w[k]),
        w.len() > 1 ==> w[0] != '0',
        digits_value(w) <= 255,
    ensures
        0 <= digits_value(w) <= 255,
        w == octet_text(digits_value(w) as u8),
{
    reveal_with_fuel(digits_value, 4);
    let d0 = w[0] as int - '0' as int;
    lemma_char_of_digit(w[0]);
    if w.len() == 1 {
        assert(w.drop_last() =~= Seq::<char>::empty());
        assert(w =~= octet_text(digits_value(w) as u8));
    } else if w.len() == 2 {
        let d1 = w[1] as int - '0' as int;
        lemma_char_of_digit(w[1]);
        assert(w.drop_last().drop_last() =~= Seq::<char>::empty());
        assert(w.drop_last().last() == w[0]);
        let v = digits_value(w);
        assert(v == d0 * 10 + d1);
        assert(v / 10 == d0 && v % 10 == d1);
        assert(w =~= octet_text(v as u8));
    } else {
        let d1 = w[1] as int - '0' as int;
        let d2 = w[2] as int - '0' as int;
        lemma_char_of_digit(w[1]);
        lemma_char_of_digit(w[2]);
        assert(w.drop_last().drop_last().drop_last() =~= Seq::<char>::empty());
        assert(w.drop_last().drop_last().last() == w[0]);
        assert(w.drop_last().last() == w[1]);
        let v = digits_value(w);
        assert(v == d0 * 100 + d1 * 10 + d2);
        assert(v / 100 == d0 && (v / 10) % 10 == d1 && v % 10 == d2);
        assert(w =~= octet_text(v as u8));
    }
}

/// Reads one octet in canonical decimal form starting at `i`.
fn read_octet(s: &str, i: usize) -> (r: Option<(u8, usize)>)
    requires
        i <= s@.len(),
    ensures
        r matches Some((v, j)) ==> j == i + octet_text(v).len() && octet_at(s@, i as int, v),
        forall|v: u8| octet_at(s@, i as int, v) ==> r == Some((v, (i + octet_text(v).len()) as usize)),
{
    let len = s.unicode_len();
    let mut j = i;
    let mut val: u32 = 0;
    while j < len && j - i < 4 && is_digit_exec(s.get_char(j))
        invariant
            i <= j <= len,
            len == s@.len(),
            j - i <= 4,
            forall|k: int| i <= k < j ==> is_digit(#[trigger] s@[k]),
            j - i == 0 ==> val == 0,
            j - i <= 1 ==> val < 10,
            j - i <= 2 ==> val < 100,
            j - i <= 3 ==> val < 1000,
            val < 10000,
            val == digits_value(s@.subrange(i as int, j as int)),
        decreases len - j,
    {
        let c = s.get_char(j);
        proof {
            lemma_digits_value_push(s@.subrange(i as int, j as int), c);
            assert(s@.subrange(i as int, j as int).push(c) =~= s@.subrange(i as int, j + 1));
        }
        val = val * 10 + (c as u32 - '0' as u32);
        j = j + 1;
    }
    let n = j - i;
    proof {
        assert forall|v: u8| octet_at(s@, i as int, v) implies n == octet_text(v).len() && val == v by {
            lemma_octet_text(v);
            let t = octet_text(v);
            assert(forall|k: int| 0 <= k < t.len() ==> s@[i + k] == t[k]);
            if n < t.len() {
                assert(is_digit(t[n as int]));
            } else if n > t.len() {
                assert(is_digit(s@[i + t.len()]));
            }
            assert(s@.subrange(i as int, j as int) =~= t);
            lemma_octet_value(v);
        }
    }
    if n == 0 || n > 3 || val > 255 {
        return None;
    }
    if n > 1 && s.get_char(i) == '0' {
        return None;
    }
    let v = val as u8;
    proof {
        let w = s@.subrange(i as int, j as int);
        lemma_canonical_digits(w);
        assert(w =~= octet_text(v));
        assert(s@.subrange(i as int, i + octet_text(v).len()) == octet_text(v));
    }
    Some((v, j))
}

fn char_at_is(s: &str, i: usize, c: char) -> (r: bool)
    requires
        i <= s@.len(),
    ensures
        r == (i < s@.len() && s@[i as int] == c),
{
    i < s.unicode_len() && s.get_char(i) == c
}

proof fn lemma_dotted_parts(ip: Ip4)
    ensures
        ({
            let s = dotted(ip);
            let n1 = octet_text(ip.a).len() as int;
            let n2 = octet_text(ip.b).len() as int;
            let n3 = octet_text(ip.c).len() as int;
            let n4 = octet_text(ip.d).len() as int;
            &&& s.len() == n1 + n2 + n3 + n4 + 3
            &&& octet_at(s, 0, ip.a)
            &&& s[n1] == '.'
            &&& octet_at(s, n1 + 1, ip.b)
            &&& s[n1 + 1 + n2] == '.'
            &&& octet_at(s, n1 + n2 + 2, ip.c)
            &&& s[n1 + n2 + 2 + n3] == '.'
            &&& octet_at(s, n1 + n2 + n3 + 3, ip.d)
        }),
{
    let s = dotted(ip);
    let ta = octet_text(ip.a);
    let tb = octet_text(ip.b);
    let tc = octet_text(ip.c);
    let td = octet_text(ip.d);
    lemma_octet_text(ip.a);
    lemma_octet_text(ip.b);
    lemma_octet_text(ip.c);
    lemma_octet_text(ip.d);
    let n1 = ta.len() as int;
    let n2 = tb.len() as int;
    let n3 = tc.len() as int;
    assert(s.subrange(0, n1) =~= ta);
    assert(s.subrange(n1 + 1, n1 + 1 + n2) =~= tb);
    assert(s.subrange(n1 + n2 + 2, n1 + n2 + 2 + n3) =~= tc);
    assert(s.subrange(n1 + n2 + n3 + 3, s.len() as int) =~= td);
}

proof fn lemma_octet_at_unique(s: Seq<char>, i: int, v: u8, w: u8)
    requires
        octet_at(s, i, v),
        octet_at(s, i, w),
    ensures
        v == w,
{
    lemma_octet_text(v);
    lemma_octet_text(w);
    let tv = octet_text(v);
    let tw = octet_text(w);
    if tv.len() < tw.len() {
        assert(s[i + tv.len()] == s.subrange(i, i + tw.len())[tv.len() as int]);
    } else if tw.len() < tv.len() {
        assert(s[i + tw.len()] == s.subrange(i, i + tv.len())[tw.len() as int]);
    }
    lemma_octet_value(v);
    lemma_octet_value(w);
}

/// Two addresses with the same text are the same address.
pub proof fn lemma_dotted_injective(x: Ip4, y: Ip4)
    requires
        dotted(x) == dotted(y),
    ensures
        x == y,
{
    let s = dotted(x);
    lemma_dotted_parts(x);
    lemma_dotted_parts(y);
    lemma_octet_at_unique(s, 0, x.a, y.a);
    let n1 = octet_text(x.a).len() as int;
    lemma_octet_at_unique(s, n1 + 1, x.b, y.b);
    let n2 = octet_text(x.b).len() as int;
    lemma_octet_at_unique(s, n1 + n2 + 2, x.c, y.c);
    let n3 = octet_text(x.c).len() as int;
    lemma_octet_at_unique(s, n1 + n2 + n3 + 3, x.d, y.d);
}

/// Every character of dotted-decimal text is a digit or a dot.
pub proof fn lemma_dotted_chars(ip: Ip4)
    ensures
        forall|k: int| 0 <= k < dotted(ip).len() ==> is_digit(#[trigger] dotted(ip)[k]) || dotted(ip)[k] == '.',
{
    lemma_octet_text(ip.a);
    lemma_octet_text(ip.b);
    lemma_octet_text(ip.c);
    lemma_octet_text(ip.d);
    let dot = seq!['.'];
    let s1 = octet_text(ip.a) + dot;
    let s2 = s1 + octet_text(ip.b);
    let s3 = s2 + dot;
    let s4 = s3 + octet_text(ip.c);
    let s5 = s4 + dot;
    let s6 = s5 + octet_text(ip.d);
    assert(forall|k: int| 0 <= k < s1.len() ==> is_digit(#[trigger] s1[k]) || s1[k] == '.');
    assert(forall|k: int| 0 <= k < s2.len() ==> is_digit(#[trigger] s2[k]) || s2[k] == '.');
    assert(forall|k: int| 0 <= k < s3.len() ==> is_digit(#[trigger] s3[k]) || s3[k] == '.');
    assert(forall|k: int| 0 <= k < s4.len() ==> is_digit(#[trigger] s4[k]) || s4[k] == '.');
    assert(forall|k: int| 0 <= k < s5.len() ==> is_digit(#[trigger] s5[k]) || s5[k] == '.');
    assert(forall|k: int| 0 <= k < s6.len() ==> is_digit(#[trigger] s6[k]) || s6[k] == '.');
    assert(s6 == dotted(ip));
}

/// The address whose dotted-decimal text is `s`, if there is one.
pub open spec fn spec_parse_ip4(s: Seq<char>) -> Option<Ip4> {
    if exists|ip: Ip4| dotted(ip) == s {
        Some(choose|ip: Ip4| dotted(ip) == s)
    } else {
        None
    }
}

proof fn lemma_parsed_is_dotted(s: Seq<char>, ip: Ip4, i1: int, i2: int, i3: int)
    requires
        0 <= i1 < i2 < i3 < s.len(),
        s.subrange(0, i1) == octet_text(ip.a),
        s[i1] == '.',
        s.subrange(i1 + 1, i2) == octet_text(ip.b),
        s[i2] == '.',
        s.subrange(i2 + 1, i3) == octet_text(ip.c),
        s[i3] == '.',
        s.subrange(i3 + 1, s.len() as int) == octet_text(ip.d),
    ensures
        s == dotted(ip),
{
    let t = dotted(ip);
    lemma_dotted_parts(ip);
    let i4 = s.len() as int;
    assert forall|k: int| 0 <= k < s.len() implies s[k] == t[k] by {
        if k < i1 {
            assert(s[k] == s.subrange(0, i1)[k]);
            assert(t[k] == t.subrange(0, i1)[k]);
        } else if k == i1 {
        } else if k < i2 {
            assert(s[k] == s.subrange(i1 + 1, i2)[k - i1 - 1]);
            assert(t[k] == t.subrange(i1 + 1, i2)[k - i1 - 1]);
        } else if k == i2 {
        } else if k < i3 {
            assert(s[k] == s.subrange(i2 + 1, i3)[k - i2 - 1]);
            assert(t[k] == t.subrange(i2 + 1, i3)[k - i2 - 1]);
        } else if k == i3 {
        } else {
            assert(s[k] == s.subrange(i3 + 1, i4)[k - i3 - 1]);
            assert(t[k] == t.subrange(i3 + 1, i4)[k - i3 - 1]);
        }
    }
    assert(s =~= t);
}

/// Parses dotted-decimal text: exactly four octets in decimal, each without
/// leading zeros, separated by single dots, and nothing else.
#[verifier::spinoff_prover]
#[verifier::rlimit(40)]
pub fn parse_ip4(s: &str) -> (r: Option<Ip4>)
    ensures
        r matches Some(ip) ==> s@ == dotted(ip),
        r is None ==> forall|ip: Ip4| s@ != dotted(ip),
        r == spec_parse_ip4(s@),
{
    let len = s.unicode_len();
    proof {
        assert forall|ip: Ip4| s@ == dotted(ip) implies {
            let n1 = octet_text(ip.a).len() as int;
            let n2 = octet_text(ip.b).len() as int;
            let n3 = octet_text(ip.c).len() as int;
            &&& octet_at(s@, 0, ip.a)
            &&& s@[n1] == '.'
            &&& octet_at(s@, n1 + 1, ip.b)
            &&& s@[n1 + 1 + n2] == '.'
            &&& octet_at(s@, n1 + n2 + 2, ip.c)
            &&& s@[n1 + n2 + 2 + n3] == '.'
            &&& octet_at(s@, n1 + n2 + n3 + 3, ip.d)
            &&& n1 + n2 + n3 + 3 + octet_text(ip.d).len() == s@.len()
        } by {
            lemma_dotted_parts(ip);
        }
    }
    let (a, i1) = match read_octet(s, 0) {
        Some(x) => x,
        None => return None,
    };
    if !char_at_is(s, i1, '.') {
        return None;
    }
    let (b, i2) = match read_octet(s, i1 + 1) {
        Some(x) => x,
        None => return None,
    };
    if !char_at_is(s, i2, '.') {
        return None;
    }
    let (c, i3) = match read_octet(s, i2 + 1) {
        Some(x) => x,
        None => return None,
    };
    if !char_at_is(s, i3, '.') {
        return None;
    }
    let (d, i4) = match read_octet(s, i3 + 1) {
        Some(x) => x,
        None => return None,
    };
    if i4 != len {
        return None;
    }
    let ip = Ip4 { a, b, c, d };
    proof {
        lemma_parsed_is_dotted(s@, ip, i1 as int, i2 as int, i3 as int);
        let q = choose|q: Ip4| dotted(q) == s@;
        lemma_dotted_injective(q, ip);
    }
    Some(ip)
}

} // verus!
