use vstd::prelude::*;
use vstd::math::abs;
use vstd::string::*;
use crate::extrude::{
    COORD_LIMIT, Point3, model_entries, segment_entries, way_entries, ways_extrudable,
    ways_in_bounds, in_bounds, seg_nondegenerate, way_extrudable, way_in_bounds,
    lemma_segment_in_limits,
};
use crate::fixed::abs64;
use crate::mesh::{MeshEntry, Wavefront, WavefrontValue};

verus! {

/// Largest magnitude, in ticks, the text format carries: far beyond
/// any coordinate the pipeline emits, yet small enough that every
/// parsed number fits its machine integer.
pub const RENDER_LIMIT: i64 = 4_000_000_000_000_000_000;

/// The decimal digit character for a value below ten.
pub open spec fn digit_char(d: int) -> char {
    if d == 0 {
        '0'
    } else if d == 1 {
        '1'
    } else if d == 2 {
        '2'
    } else if d == 3 {
        '3'
    } else if d == 4 {
        '4'
    } else if d == 5 {
        '5'
    } else if d == 6 {
        '6'
    } else if d == 7 {
        '7'
    } else if d == 8 {
        '8'
    } else {
        '9'
    }
}

/// The value of a decimal digit character, if it is one.
pub open spec fn digit_val(c: char) -> Option<int> {
    if c == '0' {
        Some(0)
    } else if c == '1' {
        Some(1)
    } else if c == '2' {
        Some(2)
    } else if c == '3' {
        Some(3)
    } else if c == '4' {
        Some(4)
    } else if c == '5' {
        Some(5)
    } else if c == '6' {
        Some(6)
    } else if c == '7' {
        Some(7)
    } else if c == '8' {
        Some(8)
    } else if c == '9' {
        Some(9)
    } else {
        None
    }
}

/// The decimal digits of a non-negative number, most significant
/// first, at least one digit.
pub open spec fn digits_of(n: nat) -> Seq<char>
    decreases n,
{
    if n < 10 {
        seq![digit_char(n as int)]
    } else {
        digits_of(n / 10).push(digit_char((n % 10) as int))
    }
}

/// A fractional part as exactly six digits, zero padded.
pub open spec fn pad6(f: int) -> Seq<char> {
    seq![
        digit_char((f / 100000) % 10),
        digit_char((f / 10000) % 10),
        digit_char((f / 1000) % 10),
        digit_char((f / 100) % 10),
        digit_char((f / 10) % 10),
        digit_char(f % 10),
    ]
}

/// A fixed-point number as decimal text: sign, whole units, a point,
/// six fraction digits.
pub open spec fn render_fixed(v: int) -> Seq<char> {
    let m = abs(v) as int;
    let sign: Seq<char> = if v < 0 {
        seq!['-']
    } else {
        Seq::empty()
    };
    sign + digits_of((m / 1_000_000) as nat) + seq!['.'] + pad6(m % 1_000_000)
}

/// An integer as decimal text: sign and digits.
pub open spec fn render_int(v: int) -> Seq<char> {
    let sign: Seq<char> = if v < 0 {
        seq!['-']
    } else {
        Seq::empty()
    };
    sign + digits_of(abs(v))
}

/// The reference list of a face: one leading space before each entry.
pub open spec fn render_refs(refs: Seq<int>) -> Seq<char>
    decreases refs.len(),
{
    if refs.len() == 0 {
        Seq::empty()
    } else {
        seq![' '] + render_int(refs[0]) + render_refs(refs.skip(1))
    }
}

/// One record as one line of text, without its line break.
pub open spec fn render_line(e: MeshEntry) -> Seq<char> {
    match e {
        MeshEntry::Vertex(x, y, z) => seq!['v', ' '] + render_fixed(x) + seq![' ']
            + render_fixed(y) + seq![' '] + render_fixed(z),
        MeshEntry::Face(refs) => seq!['f'] + render_refs(refs),
    }
}

/// The whole model as text: one line per record, in emission order,
/// each closed by a line break.
pub open spec fn render_model(entries: Seq<MeshEntry>) -> Seq<char>
    decreases entries.len(),
{
    if entries.len() == 0 {
        Seq::empty()
    } else {
        render_model(entries.drop_last()) + render_line(entries.last()) + seq!['\n']
    }
}

fn digit_str(d: u64) -> (r: &'static str)
    requires
        d < 10,
    ensures
        r@ =~= seq![digit_char(d as int)],
{
    proof {
        reveal_strlit("0");
        reveal_strlit("1");
        reveal_strlit("2");
        reveal_strlit("3");
        reveal_strlit("4");
        reveal_strlit("5");
        reveal_strlit("6");
        reveal_strlit("7");
        reveal_strlit("8");
        reveal_strlit("9");
    }
    match d {
        0 => "0",
        1 => "1",
        2 => "2",
        3 => "3",
        4 => "4",
        5 => "5",
        6 => "6",
        7 => "7",
        8 => "8",
        _ => "9",
    }
}

fn abs_mag(v: i64) -> (r: u64)
    ensures
        r == abs(v as int),
{
    if v == i64::MIN {
        9_223_372_036_854_775_808u64
    } else {
        abs64(v)
    }
}

fn push_digits(s: &mut String, n: u64)
    ensures
        final(s)@ == old(s)@ + digits_of(n as nat),
    decreases n,
{
    if n < 10 {
        let d = digit_str(n);
        s.append(d);
    } else {
        let ghost pre = s@;
        push_digits(s, n / 10);
        let d = digit_str(n % 10);
        s.append(d);
        proof {
            assert(s@ =~= pre + digits_of(n as nat));
        }
    }
}

#[verifier::rlimit(60)]
pub(crate) fn push_fixed(s: &mut String, v: i64)
    ensures
        final(s)@ == old(s)@ + render_fixed(v as int),
{
    let ghost pre = s@;
    let m: u64 = abs_mag(v);
    if v < 0 {
        proof {
            reveal_strlit("-");
        }
        s.append("-");
    }
    push_digits(s, m / 1_000_000);
    proof {
        reveal_strlit(".");
    }
    s.append(".");
    let f: u64 = m % 1_000_000;
    let d1 = digit_str((f / 100000) % 10);
    s.append(d1);
    let d2 = digit_str((f / 10000) % 10);
    s.append(d2);
    let d3 = digit_str((f / 1000) % 10);
    s.append(d3);
    let d4 = digit_str((f / 100) % 10);
    s.append(d4);
    let d5 = digit_str((f / 10) % 10);
    s.append(d5);
    let d6 = digit_str(f % 10);
    s.append(d6);
    proof {
        assert(s@ =~= pre + render_fixed(v as int));
    }
}

fn push_int(s: &mut String, v: i64)
    ensures
        final(s)@ == old(s)@ + render_int(v as int),
{
    let ghost pre = s@;
    let m: u64 = abs_mag(v);
    if v < 0 {
        proof {
            reveal_strlit("-");
        }
        s.append("-");
    }
    push_digits(s, m);
    proof {
        assert(s@ =~= pre + render_int(v as int));
    }
}

impl WavefrontValue {
    /// Renders this record as its line of the text format, without
    /// the line break.
    pub fn to_string(&self) -> (r: String)
        ensures
            r@ == render_line(self@),
    {
        let mut s = String::new();
        match self {
            WavefrontValue::Vertex(x, y, z) => {
                proof {
                    reveal_strlit("v ");
                    reveal_strlit(" ");
                }
                s.append("v ");
                push_fixed(&mut s, *x);
                s.append(" ");
                push_fixed(&mut s, *y);
                s.append(" ");
                push_fixed(&mut s, *z);
                proof {
                    assert(s@ =~= render_line(self@));
                }
            },
            WavefrontValue::Face(refs) => {
                proof {
                    reveal_strlit("f");
                }
                s.append("f");
                let ghost grefs = refs@.map(|_i: int, v: i64| v as int);
                let mut i: usize = 0;
                proof {
                    assert(grefs.skip(0) =~= grefs);
                    assert(s@ =~= seq!['f']);
                    assert(s@ + render_refs(grefs.skip(0)) =~= seq!['f'] + render_refs(grefs));
                }
                while i < refs.len()
                    invariant
                        grefs == refs@.map(|_i: int, v: i64| v as int),
                        i <= refs@.len(),
                        s@ + render_refs(grefs.skip(i as int)) == seq!['f'] + render_refs(
                            grefs,
                        ),
                    decreases refs@.len() - i,
                {
                    let ghost pres = s@;
                    proof {
                        reveal_strlit(" ");
                        assert(grefs.skip(i as int).len() > 0);
                        assert(grefs.skip(i as int)[0] == grefs[i as int]);
                        assert(grefs.skip(i as int).skip(1) =~= grefs.skip(i as int + 1));
                    }
                    s.append(" ");
                    push_int(&mut s, refs[i]);
                    i = i + 1;
                    proof {
                        assert(render_refs(grefs.skip(i as int - 1)) == seq![' '] + render_int(
                            grefs[i as int - 1],
                        ) + render_refs(grefs.skip(i as int)));
                        assert(s@ + render_refs(grefs.skip(i as int)) =~= pres + render_refs(
                            grefs.skip(i as int - 1),
                        ));
                    }
                }
                proof {
                    assert(grefs.skip(grefs.len() as int) =~= Seq::<int>::empty());
                    assert(render_refs(grefs.skip(grefs.len() as int)) =~= Seq::empty());
                    assert(s@ =~= s@ + render_refs(grefs.skip(grefs.len() as int)));
                    assert(s@ =~= seq!['f'] + render_refs(grefs));
                }
            },
        }
        s
    }
}

impl Wavefront {
    /// Renders the whole model log as text: one line per record, in
    /// emission order, each line closed by a line break.
    pub fn to_string(&self) -> (r: String)
        ensures
            r@ == render_model(self@),
    {
        let mut s = String::new();
        let mut i: usize = 0;
        proof {
            assert(self@.subrange(0, 0) =~= Seq::<MeshEntry>::empty());
            assert(s@ =~= render_model(self@.subrange(0, 0)));
        }
        while i < self.values.len()
            invariant
                i <= self.values@.len(),
                self@.len() == self.values@.len(),
                s@ == render_model(self@.subrange(0, i as int)),
            decreases self.values@.len() - i,
        {
            let line = self.values[i].to_string();
            s.append(line.as_str());
            proof {
                reveal_strlit("\n");
            }
            s.append("\n");
            i = i + 1;
            proof {
                let sub2 = self@.subrange(0, i as int);
                assert(sub2.drop_last() =~= self@.subrange(0, i as int - 1));
                assert(sub2.last() == self@[i as int - 1]);
                assert(self@[i as int - 1] == self.values@[i as int - 1]@);
                assert(s@ =~= render_model(sub2));
            }
        }
        proof {
            assert(self@.subrange(0, self@.len() as int) =~= self@);
        }
        s
    }
}


/// The first position at which `c` stands in `s`, or a negative value
/// when it does not occur.
pub open spec fn first_at(s: Seq<char>, c: char) -> int
    decreases s.len(),
{
    if s.len() == 0 {
        -1
    } else if s[0] == c {
        0
    } else {
        let r = first_at(s.skip(1), c);
        if r < 0 {
            -1
        } else {
            1 + r
        }
    }
}

/// The space-separated fields of a line.
pub open spec fn split_sp(s: Seq<char>) -> Seq<Seq<char>>
    decreases s.len(),
{
    let i = first_at(s, ' ');
    if i < 0 || i >= s.len() {
        seq![s]
    } else {
        seq![s.subrange(0, i)] + split_sp(s.skip(i + 1))
    }
}

/// The value of a run of decimal digits, most significant first.
/// Rejects an empty run, a non-digit, and a value past `RENDER_LIMIT`.
pub open spec fn parse_digits(t: Seq<char>) -> Option<int>
    decreases t.len(),
{
    if t.len() == 0 {
        None
    } else if t.len() == 1 {
        digit_val(t[0])
    } else {
        match parse_digits(t.drop_last()) {
            None => None,
            Some(hi) => match digit_val(t.last()) {
                None => None,
                Some(d) => if hi * 10 + d > RENDER_LIMIT as int {
                    None
                } else {
                    Some(hi * 10 + d)
                },
            },
        }
    }
}

/// An unsigned fixed-point number: digits, a point, six digits.
pub open spec fn parse_ufixed(t: Seq<char>) -> Option<int> {
    if t.len() >= 8 && t[t.len() - 7] == '.' {
        match parse_digits(t.subrange(0, t.len() - 7)) {
            None => None,
            Some(ip) => match parse_digits(t.subrange(t.len() - 6, t.len() as int)) {
                None => None,
                Some(f) => if ip * 1_000_000 + f > RENDER_LIMIT as int {
                    None
                } else {
                    Some(ip * 1_000_000 + f)
                },
            },
        }
    } else {
        None
    }
}

/// A fixed-point number with an optional leading sign.
pub open spec fn parse_fixed(t: Seq<char>) -> Option<int> {
    if t.len() >= 1 && t[0] == '-' {
        match parse_ufixed(t.skip(1)) {
            None => None,
            Some(v) => Some(-v),
        }
    } else {
        parse_ufixed(t)
    }
}

/// An integer with an optional leading sign.
pub open spec fn parse_int(t: Seq<char>) -> Option<int> {
    if t.len() >= 1 && t[0] == '-' {
        match parse_digits(t.skip(1)) {
            None => None,
            Some(v) => Some(-v),
        }
    } else {
        parse_digits(t)
    }
}

/// The reference values of a face line's fields.
pub open spec fn parse_ints(fs: Seq<Seq<char>>) -> Option<Seq<int>>
    decreases fs.len(),
{
    if fs.len() == 0 {
        Some(Seq::empty())
    } else {
        match parse_int(fs[0]) {
            None => None,
            Some(v) => match parse_ints(fs.skip(1)) {
                None => None,
                Some(rest) => Some(seq![v] + rest),
            },
        }
    }
}

/// One line of the text format back into its record.
pub open spec fn parse_line(line: Seq<char>) -> Option<MeshEntry> {
    let fs = split_sp(line);
    if fs.len() == 4 && fs[0] == seq!['v'] {
        match parse_fixed(fs[1]) {
            None => None,
            Some(x) => match parse_fixed(fs[2]) {
                None => None,
                Some(y) => match parse_fixed(fs[3]) {
                    None => None,
                    Some(z) => Some(MeshEntry::Vertex(x, y, z)),
                },
            },
        }
    } else if fs.len() >= 1 && fs[0] == seq!['f'] {
        match parse_ints(fs.skip(1)) {
            None => None,
            Some(refs) => Some(MeshEntry::Face(refs)),
        }
    } else {
        None
    }
}

/// The whole text back into its records: one line per record, each
/// line closed by a line break.
pub open spec fn parse_model(s: Seq<char>) -> Option<Seq<MeshEntry>>
    decreases s.len(),
{
    if s.len() == 0 {
        Some(Seq::empty())
    } else {
        let i = first_at(s, '\n');
        if i < 0 || i >= s.len() {
            None
        } else {
            match parse_line(s.subrange(0, i)) {
                None => None,
                Some(e) => match parse_model(s.skip(i + 1)) {
                    None => None,
                    Some(rest) => Some(seq![e] + rest),
                },
            }
        }
    }
}

/// A record whose numbers the text format can carry.
pub open spec fn entry_renderable(e: MeshEntry) -> bool {
    match e {
        MeshEntry::Vertex(x, y, z) => -RENDER_LIMIT <= x <= RENDER_LIMIT && -RENDER_LIMIT <= y
            <= RENDER_LIMIT && -RENDER_LIMIT <= z <= RENDER_LIMIT,
        MeshEntry::Face(refs) => forall|i: int|
            0 <= i < refs.len() ==> -RENDER_LIMIT <= #[trigger] refs[i] <= RENDER_LIMIT,
    }
}

pub open spec fn model_renderable(entries: Seq<MeshEntry>) -> bool {
    forall|i: int| 0 <= i < entries.len() ==> entry_renderable(#[trigger] entries[i])
}


/// A sequence without `c` has no first position of it.
proof fn lemma_first_at_none(s: Seq<char>, c: char)
    requires
        forall|i: int| 0 <= i < s.len() ==> s[i] != c,
    ensures
        first_at(s, c) == -1,
    decreases s.len(),
{
    if s.len() > 0 {
        assert(forall|i: int| 0 <= i < s.skip(1).len() ==> s.skip(1)[i] == s[i + 1]);
        lemma_first_at_none(s.skip(1), c);
    }
}

/// The first `c` after a clean prefix stands right after it.
proof fn lemma_first_at_prefix(a: Seq<char>, c: char, rest: Seq<char>)
    requires
        forall|i: int| 0 <= i < a.len() ==> a[i] != c,
    ensures
        first_at(a + seq![c] + rest, c) == a.len(),
    decreases a.len(),
{
    let s = a + seq![c] + rest;
    if a.len() == 0 {
        assert(s[0] == c);
    } else {
        assert(s[0] == a[0]);
        assert(forall|i: int| 0 <= i < a.skip(1).len() ==> a.skip(1)[i] == a[i + 1]);
        lemma_first_at_prefix(a.skip(1), c, rest);
        assert(s.skip(1) =~= a.skip(1) + seq![c] + rest);
    }
}

/// Reading the digit written for `d` gives `d` back.
proof fn lemma_digit_round(d: int)
    requires
        0 <= d < 10,
    ensures
        digit_val(digit_char(d)) == Some(d),
{
}

/// Every character a number writes is a digit.
proof fn lemma_digits_chars(n: nat)
    ensures
        digits_of(n).len() >= 1,
        forall|i: int| 0 <= i < digits_of(n).len() ==> (#[trigger] digit_val(digits_of(n)[i]))
            is Some,
    decreases n,
{
    if n < 10 {
        lemma_digit_round(n as int);
    } else {
        lemma_digits_chars(n / 10);
        lemma_digit_round((n % 10) as int);
        assert(digits_of(n).last() == digit_char((n % 10) as int));
        assert(forall|i: int|
            0 <= i < digits_of(n).len() - 1 ==> digits_of(n)[i] == digits_of(n / 10)[i]);
    }
}

/// Reading the digits written for `n` gives `n` back.
proof fn lemma_parse_digits_of(n: nat)
    requires
        n <= RENDER_LIMIT as nat,
    ensures
        parse_digits(digits_of(n)) == Some(n as int),
    decreases n,
{
    if n < 10 {
        lemma_digit_round(n as int);
    } else {
        lemma_parse_digits_of(n / 10);
        lemma_digits_chars(n / 10);
        lemma_digit_round((n % 10) as int);
        let t = digits_of(n);
        assert(t.len() >= 2);
        assert(t.drop_last() =~= digits_of(n / 10));
        assert(t.last() == digit_char((n % 10) as int));
        assert((n / 10) * 10 + n % 10 == n) by {
            vstd::arithmetic::div_mod::lemma_fundamental_div_mod(n as int, 10);
        }
    }
}

/// Reading the six padded fraction digits gives the fraction back.
proof fn lemma_parse_pad6(f: int)
    requires
        0 <= f < 1_000_000,
    ensures
        parse_digits(pad6(f)) == Some(f),
{
    let t = pad6(f);
    let d5 = f / 100000;
    let d4 = (f / 10000) % 10;
    let d3 = (f / 1000) % 10;
    let d2 = (f / 100) % 10;
    let d1 = (f / 10) % 10;
    let d0 = f % 10;
    assert((f / 100000) % 10 == d5) by {
        assert(f / 100000 < 10);
    }
    vstd::arithmetic::div_mod::lemma_div_denominator(f, 10000, 10);
    vstd::arithmetic::div_mod::lemma_div_denominator(f, 1000, 10);
    vstd::arithmetic::div_mod::lemma_div_denominator(f, 100, 10);
    vstd::arithmetic::div_mod::lemma_div_denominator(f, 10, 10);
    vstd::arithmetic::div_mod::lemma_fundamental_div_mod(f / 10000, 10);
    vstd::arithmetic::div_mod::lemma_fundamental_div_mod(f / 1000, 10);
    vstd::arithmetic::div_mod::lemma_fundamental_div_mod(f / 100, 10);
    vstd::arithmetic::div_mod::lemma_fundamental_div_mod(f / 10, 10);
    vstd::arithmetic::div_mod::lemma_fundamental_div_mod(f, 10);
    lemma_digit_round(d5);
    lemma_digit_round(d4);
    lemma_digit_round(d3);
    lemma_digit_round(d2);
    lemma_digit_round(d1);
    lemma_digit_round(d0);
    let t1 = t.subrange(0, 1);
    let t2 = t.subrange(0, 2);
    let t3 = t.subrange(0, 3);
    let t4 = t.subrange(0, 4);
    let t5 = t.subrange(0, 5);
    assert(t1.len() == 1 && t1[0] == digit_char(d5));
    assert(parse_digits(t1) == Some(d5));
    assert(t2.drop_last() =~= t1 && t2.last() == digit_char(d4));
    assert(parse_digits(t2) == Some(d5 * 10 + d4));
    assert(d5 * 10 + d4 == f / 10000);
    assert(t3.drop_last() =~= t2 && t3.last() == digit_char(d3));
    assert(parse_digits(t3) == Some((f / 10000) * 10 + d3));
    assert((f / 10000) * 10 + d3 == f / 1000);
    assert(t4.drop_last() =~= t3 && t4.last() == digit_char(d2));
    assert(parse_digits(t4) == Some((f / 1000) * 10 + d2));
    assert((f / 1000) * 10 + d2 == f / 100);
    assert(t5.drop_last() =~= t4 && t5.last() == digit_char(d1));
    assert(parse_digits(t5) == Some((f / 100) * 10 + d1));
    assert((f / 100) * 10 + d1 == f / 10);
    assert(t.drop_last() =~= t5 && t.last() == digit_char(d0));
    assert(parse_digits(t) == Some((f / 10) * 10 + d0));
    assert((f / 10) * 10 + d0 == f);
}

/// Reading a written fixed-point number gives the value back.
proof fn lemma_parse_render_fixed(v: int)
    requires
        -RENDER_LIMIT <= v <= RENDER_LIMIT,
    ensures
        parse_fixed(render_fixed(v)) == Some(v),
{
    let m = abs(v) as int;
    let ip = m / 1_000_000;
    let f = m % 1_000_000;
    vstd::arithmetic::div_mod::lemma_fundamental_div_mod(m, 1_000_000);
    vstd::arithmetic::div_mod::lemma_mod_division_less_than_divisor(m, 1_000_000);
    lemma_digits_chars(ip as nat);
    lemma_parse_digits_of(ip as nat);
    lemma_parse_pad6(f);
    let body = digits_of(ip as nat) + seq!['.'] + pad6(f);
    let dl = digits_of(ip as nat).len() as int;
    assert(body.len() == dl + 7);
    assert(body[dl] == '.');
    assert(body.subrange(0, dl) =~= digits_of(ip as nat));
    assert(body.subrange(body.len() - 6, body.len() as int) =~= pad6(f));
    assert(body[0] == digits_of(ip as nat)[0]);
    assert(digit_val(body[0]) is Some);
    assert(body[0] != '-');
    assert(body[body.len() - 7] == '.');
    assert(parse_ufixed(body) == Some(ip * 1_000_000 + f));
    assert(ip * 1_000_000 + f == m);
    if v < 0 {
        let t = render_fixed(v);
        assert(t =~= seq!['-'] + body);
        assert(t[0] == '-');
        assert(t.skip(1) =~= body);
    } else {
        assert(render_fixed(v) =~= body);
    }
}

/// Reading a written integer gives the value back.
proof fn lemma_parse_render_int(v: int)
    requires
        -RENDER_LIMIT <= v <= RENDER_LIMIT,
    ensures
        parse_int(render_int(v)) == Some(v),
{
    lemma_digits_chars(abs(v));
    lemma_parse_digits_of(abs(v));
    let body = digits_of(abs(v));
    assert(body[0] != '-') by {
        assert(digit_val(body[0]) is Some);
    }
    if v < 0 {
        let t = render_int(v);
        assert(t =~= seq!['-'] + body);
        assert(t[0] == '-');
        assert(t.skip(1) =~= body);
    } else {
        assert(render_int(v) =~= body);
    }
}

/// No character of a written number is a space or a line break.
proof fn lemma_digits_clean(n: nat)
    ensures
        forall|i: int|
            0 <= i < digits_of(n).len() ==> #[trigger] digits_of(n)[i] != ' ' && digits_of(
                n,
            )[i] != '\n',
{
    lemma_digits_chars(n);
    assert forall|i: int|
        0 <= i < digits_of(n).len() implies #[trigger] digits_of(n)[i] != ' ' && digits_of(
        n,
    )[i] != '\n' by {
        assert(digit_val(digits_of(n)[i]) is Some);
    }
}

proof fn lemma_render_fixed_clean(v: int)
    ensures
        forall|i: int|
            0 <= i < render_fixed(v).len() ==> #[trigger] render_fixed(v)[i] != ' '
                && render_fixed(v)[i] != '\n',
{
    let m = abs(v) as int;
    lemma_digits_clean((m / 1_000_000) as nat);
    let t = render_fixed(v);
    let dl = digits_of((m / 1_000_000) as nat).len() as int;
    assert forall|i: int| 0 <= i < t.len() implies #[trigger] t[i] != ' ' && t[i] != '\n' by {
        if v < 0 {
            if 1 <= i < 1 + dl {
                assert(t[i] == digits_of((m / 1_000_000) as nat)[i - 1]);
            } else if i == 1 + dl {
                assert(t[i] == '.');
            } else if i > 1 + dl {
                assert(t[i] == pad6(m % 1_000_000)[i - dl - 2]);
                assert(digit_val(pad6(m % 1_000_000)[i - dl - 2]) is Some) by {
                    lemma_digit_round(((m % 1_000_000) / 100000) % 10);
                    lemma_digit_round(((m % 1_000_000) / 10000) % 10);
                    lemma_digit_round(((m % 1_000_000) / 1000) % 10);
                    lemma_digit_round(((m % 1_000_000) / 100) % 10);
                    lemma_digit_round(((m % 1_000_000) / 10) % 10);
                    lemma_digit_round((m % 1_000_000) % 10);
                }
            }
        } else {
            if 0 <= i < dl {
                assert(t[i] == digits_of((m / 1_000_000) as nat)[i]);
            } else if i == dl {
                assert(t[i] == '.');
            } else {
                assert(t[i] == pad6(m % 1_000_000)[i - dl - 1]);
                assert(digit_val(pad6(m % 1_000_000)[i - dl - 1]) is Some) by {
                    lemma_digit_round(((m % 1_000_000) / 100000) % 10);
                    lemma_digit_round(((m % 1_000_000) / 10000) % 10);
                    lemma_digit_round(((m % 1_000_000) / 1000) % 10);
                    lemma_digit_round(((m % 1_000_000) / 100) % 10);
                    lemma_digit_round(((m % 1_000_000) / 10) % 10);
                    lemma_digit_round((m % 1_000_000) % 10);
                }
            }
        }
    }
}

proof fn lemma_render_int_clean(v: int)
    ensures
        forall|i: int|
            0 <= i < render_int(v).len() ==> #[trigger] render_int(v)[i] != ' ' && render_int(
                v,
            )[i] != '\n',
{
    lemma_digits_clean(abs(v));
    let t = render_int(v);
    assert forall|i: int| 0 <= i < t.len() implies #[trigger] t[i] != ' ' && t[i] != '\n' by {
        if v < 0 {
            if i >= 1 {
                assert(t[i] == digits_of(abs(v))[i - 1]);
            }
        } else {
            assert(t[i] == digits_of(abs(v))[i]);
        }
    }
}

/// Splitting takes one clean field off the front.
proof fn lemma_split_prepend(a: Seq<char>, rest: Seq<char>)
    requires
        forall|i: int| 0 <= i < a.len() ==> a[i] != ' ',
    ensures
        split_sp(a + seq![' '] + rest) == seq![a] + split_sp(rest),
{
    let s = a + seq![' '] + rest;
    lemma_first_at_prefix(a, ' ', rest);
    assert(s.subrange(0, a.len() as int) =~= a);
    assert(s.skip(a.len() as int + 1) =~= rest);
}

/// A clean line is one single field.
proof fn lemma_split_single(a: Seq<char>)
    requires
        forall|i: int| 0 <= i < a.len() ==> a[i] != ' ',
    ensures
        split_sp(a) == seq![a],
{
    lemma_first_at_none(a, ' ');
}


/// The fields of a rendered reference list are the rendered integers,
/// one per reference.
proof fn lemma_split_refs(refs: Seq<int>)
    requires
        refs.len() >= 1,
        forall|i: int| 0 <= i < refs.len() ==> -RENDER_LIMIT <= #[trigger] refs[i] <= RENDER_LIMIT,
    ensures
        split_sp(render_int(refs[0]) + render_refs(refs.skip(1))) == Seq::new(
            refs.len(),
            |i: int| render_int(refs[i]),
        ),
    decreases refs.len(),
{
    lemma_render_int_clean(refs[0]);
    if refs.len() == 1 {
        assert(render_refs(refs.skip(1)) =~= Seq::empty()) by {
            assert(refs.skip(1).len() == 0);
        }
        assert(render_int(refs[0]) + render_refs(refs.skip(1)) =~= render_int(refs[0]));
        lemma_split_single(render_int(refs[0]));
        assert(seq![render_int(refs[0])] =~= Seq::new(1, |i: int| render_int(refs[i])));
    } else {
        let tail = refs.skip(1);
        assert(tail.len() >= 1);
        assert(forall|i: int| 0 <= i < tail.len() ==> tail[i] == refs[i + 1]);
        lemma_split_refs(tail);
        assert(render_refs(refs.skip(1)) == seq![' '] + render_int(tail[0]) + render_refs(
            tail.skip(1),
        ));
        assert(render_int(refs[0]) + render_refs(refs.skip(1)) =~= render_int(refs[0])
            + seq![' '] + (render_int(tail[0]) + render_refs(tail.skip(1))));
        lemma_split_prepend(
            render_int(refs[0]),
            render_int(tail[0]) + render_refs(tail.skip(1)),
        );
        assert(split_sp(render_int(refs[0]) + render_refs(refs.skip(1))) == seq![render_int(
            refs[0],
        )] + Seq::new(tail.len(), |i: int| render_int(tail[i])));
        assert(seq![render_int(refs[0])] + Seq::new(tail.len(), |i: int| render_int(tail[i]))
            =~= Seq::new(refs.len(), |i: int| render_int(refs[i])));
    }
}

/// Reading the rendered integer fields gives the references back.
proof fn lemma_parse_ints_rendered(refs: Seq<int>)
    requires
        forall|i: int| 0 <= i < refs.len() ==> -RENDER_LIMIT <= #[trigger] refs[i] <= RENDER_LIMIT,
    ensures
        parse_ints(Seq::new(refs.len(), |i: int| render_int(refs[i]))) == Some(refs),
    decreases refs.len(),
{
    let fs = Seq::new(refs.len(), |i: int| render_int(refs[i]));
    if refs.len() == 0 {
        assert(Some(Seq::<int>::empty()) == Some(refs)) by {
            assert(refs =~= Seq::<int>::empty());
        }
    } else {
        lemma_parse_render_int(refs[0]);
        let tail = refs.skip(1);
        assert(forall|i: int| 0 <= i < tail.len() ==> tail[i] == refs[i + 1]);
        lemma_parse_ints_rendered(tail);
        assert(fs.skip(1) =~= Seq::new(tail.len(), |i: int| render_int(tail[i])));
        assert(seq![refs[0]] + tail =~= refs);
    }
}

/// The three number fields of a vertex line, with their separators.
spec fn vertex_fields(fx: Seq<char>, fy: Seq<char>, fz: Seq<char>) -> Seq<char> {
    fx + seq![' '] + fy + seq![' '] + fz
}

/// Reading one rendered line gives the record back.
#[verifier::rlimit(100)]
proof fn lemma_parse_render_line(e: MeshEntry)
    requires
        entry_renderable(e),
    ensures
        parse_line(render_line(e)) == Some(e),
{
    match e {
        MeshEntry::Vertex(x, y, z) => {
            let fx = render_fixed(x);
            let fy = render_fixed(y);
            let fz = render_fixed(z);
            lemma_render_fixed_clean(x);
            lemma_render_fixed_clean(y);
            lemma_render_fixed_clean(z);
            let line = render_line(e);
            assert(line =~= seq!['v'] + seq![' '] + (vertex_fields(fx, fy, fz)));
            lemma_split_prepend(seq!['v'], vertex_fields(fx, fy, fz));
            assert(vertex_fields(fx, fy, fz) =~= fx + seq![' '] + (fy + seq![' '] + fz));
            lemma_split_prepend(fx, fy + seq![' '] + fz);
            lemma_split_prepend(fy, fz);
            lemma_split_single(fz);
            let fs = split_sp(line);
            assert(fs =~= seq![seq!['v'], fx, fy, fz]);
            assert(fs.len() == 4 && fs[0] == seq!['v']);
            lemma_parse_render_fixed(x);
            lemma_parse_render_fixed(y);
            lemma_parse_render_fixed(z);
        },
        MeshEntry::Face(refs) => {
            let line = render_line(e);
            if refs.len() == 0 {
                assert(line =~= seq!['f']);
                lemma_split_single(seq!['f']);
                let fs = split_sp(line);
                assert(fs.len() == 1 && fs[0] == seq!['f']);
                assert(!(fs[0] == seq!['v'])) by {
                    assert(fs[0][0] == 'f');
                }
                assert(fs.skip(1) =~= Seq::<Seq<char>>::empty());
                assert(Some(refs) == Some(Seq::<int>::empty())) by {
                    assert(refs =~= Seq::<int>::empty());
                }
            } else {
                assert(render_refs(refs) == seq![' '] + render_int(refs[0]) + render_refs(
                    refs.skip(1),
                ));
                assert(line =~= seq!['f'] + seq![' '] + (render_int(refs[0]) + render_refs(
                    refs.skip(1),
                )));
                lemma_split_prepend(seq!['f'], render_int(refs[0]) + render_refs(refs.skip(1)));
                lemma_split_refs(refs);
                let fs = split_sp(line);
                assert(fs =~= seq![seq!['f']] + Seq::new(
                    refs.len(),
                    |i: int| render_int(refs[i]),
                ));
                assert(fs[0] == seq!['f']);
                assert(!(fs[0] == seq!['v'])) by {
                    assert(fs[0][0] == 'f');
                }
                assert(fs.len() != 4 || !(fs[0] == seq!['v']));
                lemma_parse_ints_rendered(refs);
                assert(fs.skip(1) =~= Seq::new(refs.len(), |i: int| render_int(refs[i])));
            }
        },
    }
}

/// No character of a rendered line is a line break.
proof fn lemma_render_line_clean(e: MeshEntry)
    ensures
        forall|i: int|
            0 <= i < render_line(e).len() ==> #[trigger] render_line(e)[i] != '\n',
    decreases (match e {
        MeshEntry::Vertex(..) => Seq::<int>::empty(),
        MeshEntry::Face(refs) => refs,
    }).len(),
{
    match e {
        MeshEntry::Vertex(x, y, z) => {
            lemma_render_fixed_clean(x);
            lemma_render_fixed_clean(y);
            lemma_render_fixed_clean(z);
            let line = render_line(e);
            let fx = render_fixed(x);
            let fy = render_fixed(y);
            let fz = render_fixed(z);
            assert forall|i: int| 0 <= i < line.len() implies #[trigger] line[i] != '\n' by {
                if i >= 2 {
                    if i < 2 + fx.len() {
                        assert(line[i] == fx[i - 2]);
                    } else if i == 2 + fx.len() {
                        assert(line[i] == ' ');
                    } else if i < 3 + fx.len() + fy.len() {
                        assert(line[i] == fy[i - 3 - fx.len()]);
                    } else if i == 3 + fx.len() + fy.len() {
                        assert(line[i] == ' ');
                    } else {
                        assert(line[i] == fz[i - 4 - fx.len() - fy.len()]);
                    }
                }
            }
        },
        MeshEntry::Face(refs) => {
            lemma_render_refs_clean(refs);
            let line = render_line(e);
            assert forall|i: int| 0 <= i < line.len() implies #[trigger] line[i] != '\n' by {
                if i >= 1 {
                    assert(line[i] == render_refs(refs)[i - 1]);
                }
            }
        },
    }
}

proof fn lemma_render_refs_clean(refs: Seq<int>)
    ensures
        forall|i: int|
            0 <= i < render_refs(refs).len() ==> #[trigger] render_refs(refs)[i] != '\n',
    decreases refs.len(),
{
    if refs.len() > 0 {
        lemma_render_int_clean(refs[0]);
        lemma_render_refs_clean(refs.skip(1));
        let t = render_refs(refs);
        let ri = render_int(refs[0]);
        assert forall|i: int| 0 <= i < t.len() implies #[trigger] t[i] != '\n' by {
            if 1 <= i < 1 + ri.len() {
                assert(t[i] == ri[i - 1]);
            } else if i >= 1 + ri.len() {
                assert(t[i] == render_refs(refs.skip(1))[i - 1 - ri.len()]);
            }
        }
    }
}

/// The rendered model read from the front: first line, break, rest.
proof fn lemma_render_model_front(entries: Seq<MeshEntry>)
    requires
        entries.len() > 0,
    ensures
        render_model(entries) == render_line(entries[0]) + seq!['\n'] + render_model(
            entries.skip(1),
        ),
    decreases entries.len(),
{
    if entries.len() == 1 {
        assert(entries.drop_last() =~= Seq::<MeshEntry>::empty());
        assert(entries.skip(1) =~= Seq::<MeshEntry>::empty());
        assert(entries.last() == entries[0]);
        assert(render_model(Seq::<MeshEntry>::empty()) == Seq::<char>::empty());
        assert(render_model(entries) == render_model(entries.drop_last()) + render_line(
            entries.last(),
        ) + seq!['\n']);
        assert(render_model(entries) =~= render_line(entries[0]) + seq!['\n']);
        assert(render_line(entries[0]) + seq!['\n'] =~= render_line(entries[0]) + seq!['\n']
            + render_model(entries.skip(1)));
    } else {
        let pre = entries.drop_last();
        lemma_render_model_front(pre);
        assert(pre[0] == entries[0]);
        assert(pre.skip(1) =~= entries.skip(1).drop_last());
        assert(entries.skip(1).last() == entries.last());
        assert(entries.skip(1).len() > 0);
        assert(render_model(entries.skip(1)) == render_model(entries.skip(1).drop_last())
            + render_line(entries.last()) + seq!['\n']);
        assert(render_model(entries) =~= render_line(entries[0]) + seq!['\n'] + render_model(
            entries.skip(1),
        ));
    }
}

/// Serialization round trip: reading the rendered text of any model
/// whose numbers the format carries yields exactly the records that
/// were rendered, coordinates, reference values and arity included.
pub proof fn lemma_render_parse_round_trip(entries: Seq<MeshEntry>)
    requires
        model_renderable(entries),
    ensures
        parse_model(render_model(entries)) == Some(entries),
    decreases entries.len(),
{
    if entries.len() == 0 {
        assert(render_model(entries) =~= Seq::<char>::empty());
        assert(Some(Seq::<MeshEntry>::empty()) == Some(entries)) by {
            assert(entries =~= Seq::<MeshEntry>::empty());
        }
    } else {
        let e0 = entries[0];
        let line = render_line(e0);
        let rest = render_model(entries.skip(1));
        lemma_render_model_front(entries);
        let s = render_model(entries);
        assert(s =~= line + seq!['\n'] + rest);
        lemma_render_line_clean(e0);
        lemma_first_at_prefix(line, '\n', rest);
        assert(first_at(s, '\n') == line.len());
        assert(s.len() == line.len() + 1 + rest.len());
        assert(s.subrange(0, line.len() as int) =~= line);
        assert(s.skip(line.len() as int + 1) =~= rest);
        lemma_parse_render_line(e0);
        assert(forall|i: int| 0 <= i < entries.skip(1).len() ==> entries.skip(1)[i] == entries[
            i + 1]);
        lemma_render_parse_round_trip(entries.skip(1));
        assert(seq![e0] + entries.skip(1) =~= entries);
    }
}


fn digit_val_exec(c: char) -> (r: Option<u64>)
    ensures
        r is Some <==> digit_val(c) is Some,
        r matches Some(d) ==> digit_val(c) == Some(d as int) && d < 10,
{
    match c {
        '0' => Some(0),
        '1' => Some(1),
        '2' => Some(2),
        '3' => Some(3),
        '4' => Some(4),
        '5' => Some(5),
        '6' => Some(6),
        '7' => Some(7),
        '8' => Some(8),
        '9' => Some(9),
        _ => None,
    }
}

fn chars_of(s: &str) -> (r: Vec<char>)
    ensures
        r@ == s@,
{
    let n = s.unicode_len();
    let mut v: Vec<char> = Vec::new();
    let mut i: usize = 0;
    while i < n
        invariant
            n == s@.len(),
            i <= n,
            v@ == s@.subrange(0, i as int),
        decreases n - i,
    {
        let c = s.get_char(i);
        v.push(c);
        i = i + 1;
        proof {
            assert(v@ =~= s@.subrange(0, i as int));
        }
    }
    proof {
        assert(s@.subrange(0, n as int) =~= s@);
    }
    v
}

fn find_char(cv: &Vec<char>, from: usize, to: usize, c: char) -> (r: Option<usize>)
    requires
        from <= to <= cv@.len(),
    ensures
        r matches Some(j) ==> from <= j < to && cv@[j as int] == c && first_at(
            cv@.subrange(from as int, to as int),
            c,
        ) == j - from,
        r is None ==> first_at(cv@.subrange(from as int, to as int), c) == -1,
{
    let mut j: usize = from;
    while j < to
        invariant
            from <= j <= to <= cv@.len(),
            forall|k: int| from <= k < j ==> cv@[k] != c,
        decreases to - j,
    {
        if cv[j] == c {
            proof {
                let t = cv@.subrange(from as int, to as int);
                let a = cv@.subrange(from as int, j as int);
                assert(forall|k: int| 0 <= k < a.len() ==> a[k] != c);
                lemma_first_at_prefix(a, c, cv@.subrange(j as int + 1, to as int));
                assert(t =~= a + seq![c] + cv@.subrange(j as int + 1, to as int));
            }
            return Some(j);
        }
        j = j + 1;
    }
    proof {
        let t = cv@.subrange(from as int, to as int);
        assert(forall|k: int| 0 <= k < t.len() ==> t[k] != c);
        lemma_first_at_none(t, c);
    }
    None
}

/// A run of digits whose prefix fails to read never reads whole.
proof fn lemma_parse_digits_prefix_none(t: Seq<char>, k: int)
    requires
        1 <= k <= t.len(),
        parse_digits(t.subrange(0, k)) is None,
    ensures
        parse_digits(t) is None,
    decreases t.len() - k,
{
    if k == t.len() {
        assert(t.subrange(0, k) =~= t);
    } else {
        assert(t.subrange(0, k + 1).drop_last() =~= t.subrange(0, k));
        assert(t.subrange(0, k + 1).len() >= 2);
        lemma_parse_digits_prefix_none(t, k + 1);
    }
}

fn parse_digits_exec(cv: &Vec<char>, start: usize, end: usize) -> (r: Option<i64>)
    requires
        start <= end <= cv@.len(),
    ensures
        r is Some <==> parse_digits(cv@.subrange(start as int, end as int)) is Some,
        r matches Some(v) ==> parse_digits(cv@.subrange(start as int, end as int)) == Some(
            v as int,
        ) && 0 <= v <= RENDER_LIMIT,
{
    let ghost t = cv@.subrange(start as int, end as int);
    if start >= end {
        return None;
    }
    let d0 = match digit_val_exec(cv[start]) {
        Some(d) => d,
        None => {
            proof {
                assert(t.subrange(0, 1).len() == 1);
                assert(t.subrange(0, 1)[0] == cv@[start as int]);
                assert(parse_digits(t.subrange(0, 1)) is None);
                lemma_parse_digits_prefix_none(t, 1);
            }
            return None;
        },
    };
    let mut acc: u128 = d0 as u128;
    let mut i: usize = start + 1;
    proof {
        assert(t.subrange(0, 1).len() == 1);
        assert(t.subrange(0, 1)[0] == cv@[start as int]);
        assert(parse_digits(t.subrange(0, i - start as int)) == Some(acc as int));
    }
    while i < end
        invariant
            start < i <= end <= cv@.len(),
            t == cv@.subrange(start as int, end as int),
            acc <= RENDER_LIMIT as u128,
            parse_digits(t.subrange(0, i - start as int)) == Some(acc as int),
        decreases end - i,
    {
        let d = match digit_val_exec(cv[i]) {
            Some(d) => d,
            None => {
                proof {
                    let k = i - start as int + 1;
                    assert(t.subrange(0, k).drop_last() =~= t.subrange(0, k - 1));
                    assert(t.subrange(0, k).last() == cv@[i as int]);
                    assert(t.subrange(0, k).len() >= 2);
                    assert(parse_digits(t.subrange(0, k)) is None);
                    lemma_parse_digits_prefix_none(t, k);
                }
                return None;
            },
        };
        let newacc: u128 = acc * 10 + (d as u128);
        proof {
            let k = i - start as int + 1;
            assert(t.subrange(0, k).drop_last() =~= t.subrange(0, k - 1));
            assert(t.subrange(0, k).last() == cv@[i as int]);
            assert(t.subrange(0, k).len() >= 2);
        }
        if newacc > RENDER_LIMIT as u128 {
            proof {
                let k = i - start as int + 1;
                assert(parse_digits(t.subrange(0, k)) is None);
                lemma_parse_digits_prefix_none(t, k);
            }
            return None;
        }
        acc = newacc;
        i = i + 1;
        proof {
            assert(parse_digits(t.subrange(0, i - start as int)) == Some(acc as int));
        }
    }
    proof {
        assert(t.subrange(0, end - start as int) =~= t);
    }
    Some(acc as i64)
}

fn parse_ufixed_exec(cv: &Vec<char>, start: usize, end: usize) -> (r: Option<i64>)
    requires
        start <= end <= cv@.len(),
    ensures
        r is Some <==> parse_ufixed(cv@.subrange(start as int, end as int)) is Some,
        r matches Some(v) ==> parse_ufixed(cv@.subrange(start as int, end as int)) == Some(
            v as int,
        ) && 0 <= v <= RENDER_LIMIT,
{
    let ghost t = cv@.subrange(start as int, end as int);
    if end - start >= 8 && cv[end - 7] == '.' {
        proof {
            assert(t[t.len() - 7] == cv@[end - 7]);
            assert(t.subrange(0, t.len() - 7) =~= cv@.subrange(start as int, end - 7));
            assert(t.subrange(t.len() - 6, t.len() as int) =~= cv@.subrange(
                end - 6,
                end as int,
            ));
        }
        let ip = match parse_digits_exec(cv, start, end - 7) {
            Some(v) => v,
            None => {
                return None;
            },
        };
        let f = match parse_digits_exec(cv, end - 6, end) {
            Some(v) => v,
            None => {
                return None;
            },
        };
        let combined: u128 = (ip as u128) * 1_000_000 + (f as u128);
        proof {
            assert((ip as u128) * 1_000_000 <= (RENDER_LIMIT as u128) * 1_000_000)
                by (nonlinear_arith)
                requires
                    0 <= ip <= RENDER_LIMIT,
            ;
            assert(combined as int == (ip as int) * 1_000_000 + f as int);
        }
        if combined > RENDER_LIMIT as u128 {
            return None;
        }
        Some(combined as i64)
    } else {
        proof {
            if t.len() >= 8 {
                assert(t[t.len() - 7] == cv@[end - 7]);
            }
        }
        None
    }
}

fn parse_fixed_exec(cv: &Vec<char>, start: usize, end: usize) -> (r: Option<i64>)
    requires
        start <= end <= cv@.len(),
    ensures
        r is Some <==> parse_fixed(cv@.subrange(start as int, end as int)) is Some,
        r matches Some(v) ==> parse_fixed(cv@.subrange(start as int, end as int)) == Some(
            v as int,
        ),
{
    let ghost t = cv@.subrange(start as int, end as int);
    if start < end && cv[start] == '-' {
        proof {
            assert(t[0] == cv@[start as int]);
            assert(t.skip(1) =~= cv@.subrange(start as int + 1, end as int));
        }
        match parse_ufixed_exec(cv, start + 1, end) {
            Some(v) => Some(-v),
            None => None,
        }
    } else {
        proof {
            if t.len() >= 1 {
                assert(t[0] == cv@[start as int]);
            }
        }
        parse_ufixed_exec(cv, start, end)
    }
}

fn parse_int_exec(cv: &Vec<char>, start: usize, end: usize) -> (r: Option<i64>)
    requires
        start <= end <= cv@.len(),
    ensures
        r is Some <==> parse_int(cv@.subrange(start as int, end as int)) is Some,
        r matches Some(v) ==> parse_int(cv@.subrange(start as int, end as int)) == Some(
            v as int,
        ),
{
    let ghost t = cv@.subrange(start as int, end as int);
    if start < end && cv[start] == '-' {
        proof {
            assert(t[0] == cv@[start as int]);
            assert(t.skip(1) =~= cv@.subrange(start as int + 1, end as int));
        }
        match parse_digits_exec(cv, start + 1, end) {
            Some(v) => Some(-v),
            None => None,
        }
    } else {
        proof {
            if t.len() >= 1 {
                assert(t[0] == cv@[start as int]);
            }
        }
        parse_digits_exec(cv, start, end)
    }
}


fn parse_line_exec(cv: &Vec<char>, start: usize, end: usize) -> (r: Option<WavefrontValue>)
    requires
        start <= end <= cv@.len(),
    ensures
        r is Some <==> parse_line(cv@.subrange(start as int, end as int)) is Some,
        r matches Some(v) ==> parse_line(cv@.subrange(start as int, end as int)) == Some(v@),
{
    let ghost line = cv@.subrange(start as int, end as int);
    let mut fields: Vec<(usize, usize)> = Vec::new();
    let ghost mut gf: Seq<Seq<char>> = Seq::empty();
    let mut fstart: usize = start;
    proof {
        assert(split_sp(line) =~= gf + split_sp(cv@.subrange(fstart as int, end as int)));
    }
    loop
        invariant_except_break
            split_sp(line) == gf + split_sp(cv@.subrange(fstart as int, end as int)),
        invariant
            start <= fstart <= end <= cv@.len(),
            line == cv@.subrange(start as int, end as int),
            fields@.len() == gf.len(),
            forall|k: int|
                0 <= k < gf.len() ==> {
                    let fd = #[trigger] fields@[k];
                    start <= fd.0 <= fd.1 <= end && gf[k] == cv@.subrange(
                        fd.0 as int,
                        fd.1 as int,
                    )
                },
        ensures
            start <= end <= cv@.len(),
            line == cv@.subrange(start as int, end as int),
            fields@.len() == gf.len(),
            gf.len() >= 1,
            forall|k: int|
                0 <= k < gf.len() ==> {
                    let fd = #[trigger] fields@[k];
                    start <= fd.0 <= fd.1 <= end && gf[k] == cv@.subrange(
                        fd.0 as int,
                        fd.1 as int,
                    )
                },
            split_sp(line) == gf,
        decreases end - fstart,
    {
        match find_char(cv, fstart, end, ' ') {
            Some(j) => {
                proof {
                    let rest = cv@.subrange(fstart as int, end as int);
                    let a = cv@.subrange(fstart as int, j as int);
                    assert(forall|k: int| 0 <= k < a.len() ==> a[k] != ' ') by {
                        assert(first_at(rest, ' ') == j - fstart);
                        assert(forall|k: int|
                            0 <= k < a.len() ==> a[k] == rest[k]);
                        lemma_first_at_clean_prefix(rest, ' ', j - fstart as int);
                    }
                    lemma_split_prepend(a, cv@.subrange(j as int + 1, end as int));
                    assert(rest =~= a + seq![' '] + cv@.subrange(j as int + 1, end as int));
                    gf = gf.push(a);
                    assert(gf + split_sp(cv@.subrange(j as int + 1, end as int)) =~= (gf.drop_last()
                        + (seq![a] + split_sp(cv@.subrange(j as int + 1, end as int)))));
                    assert(split_sp(line) =~= gf + split_sp(
                        cv@.subrange(j as int + 1, end as int),
                    ));
                }
                fields.push((fstart, j));
                fstart = j + 1;
            },
            None => {
                proof {
                    let a = cv@.subrange(fstart as int, end as int);
                    assert(forall|k: int| 0 <= k < a.len() ==> a[k] != ' ') by {
                        lemma_first_at_clean_none(a, ' ');
                    }
                    lemma_split_single(a);
                    gf = gf.push(a);
                    assert(split_sp(line) =~= gf);
                }
                fields.push((fstart, end));
                break;
            },
        }
    }
    proof {
        assert(split_sp(line) == gf);
        assert(gf.len() >= 1);
    }
    let f0 = fields[0];
    let first_is_v = f0.1 - f0.0 == 1 && cv[f0.0] == 'v';
    let first_is_f = f0.1 - f0.0 == 1 && cv[f0.0] == 'f';
    proof {
        assert(gf[0] == cv@.subrange(f0.0 as int, f0.1 as int));
        if first_is_v {
            assert(gf[0] =~= seq!['v']);
        } else {
            assert(!(gf[0] == seq!['v'])) by {
                if gf[0] == seq!['v'] {
                    assert(gf[0].len() == 1 && gf[0][0] == 'v');
                }
            }
        }
        if first_is_f {
            assert(gf[0] =~= seq!['f']);
        } else {
            assert(!(gf[0] == seq!['f'])) by {
                if gf[0] == seq!['f'] {
                    assert(gf[0].len() == 1 && gf[0][0] == 'f');
                }
            }
        }
    }
    if fields.len() == 4 && first_is_v {
        let f1 = fields[1];
        let f2 = fields[2];
        let f3 = fields[3];
        proof {
            assert(gf[1] == cv@.subrange(f1.0 as int, f1.1 as int));
            assert(gf[2] == cv@.subrange(f2.0 as int, f2.1 as int));
            assert(gf[3] == cv@.subrange(f3.0 as int, f3.1 as int));
        }
        let x = match parse_fixed_exec(cv, f1.0, f1.1) {
            Some(v) => v,
            None => {
                return None;
            },
        };
        let y = match parse_fixed_exec(cv, f2.0, f2.1) {
            Some(v) => v,
            None => {
                return None;
            },
        };
        let z = match parse_fixed_exec(cv, f3.0, f3.1) {
            Some(v) => v,
            None => {
                return None;
            },
        };
        Some(WavefrontValue::Vertex(x, y, z))
    } else if first_is_f {
        let mut refs: Vec<i64> = Vec::new();
        let mut k: usize = 1;
        proof {
            assert(parse_ints(gf.skip(1)) == match parse_ints(gf.skip(1)) {
                Some(rest) => Some(refs@.map(|_i: int, v: i64| v as int) + rest),
                None => None::<Seq<int>>,
            }) by {
                if parse_ints(gf.skip(1)) is Some {
                    assert(refs@.map(|_i: int, v: i64| v as int) + parse_ints(
                        gf.skip(1),
                    )->Some_0 =~= parse_ints(gf.skip(1))->Some_0);
                }
            }
        }
        while k < fields.len()
            invariant
                1 <= k <= fields@.len(),
                fields@.len() == gf.len(),
                line == cv@.subrange(start as int, end as int),
                start <= end <= cv@.len(),
                split_sp(line) == gf,
                gf[0] == seq!['f'],
                !(gf[0] == seq!['v']),
                forall|m: int|
                    0 <= m < gf.len() ==> {
                        let fd = #[trigger] fields@[m];
                        fd.0 <= fd.1 <= cv@.len() && gf[m] == cv@.subrange(
                            fd.0 as int,
                            fd.1 as int,
                        )
                    },
                refs@.len() == k - 1,
                parse_ints(gf.skip(1)) == match parse_ints(gf.skip(k as int)) {
                    Some(rest) => Some(refs@.map(|_i: int, v: i64| v as int) + rest),
                    None => None::<Seq<int>>,
                },
            decreases fields@.len() - k,
        {
            let fk = fields[k];
            proof {
                assert(gf[k as int] == cv@.subrange(fk.0 as int, fk.1 as int));
                assert(gf.skip(k as int).len() > 0);
                assert(gf.skip(k as int)[0] == gf[k as int]);
                assert(gf.skip(k as int).skip(1) =~= gf.skip(k as int + 1));
            }
            match parse_int_exec(cv, fk.0, fk.1) {
                Some(v) => {
                    let ghost prerefs = refs@;
                    refs.push(v);
                    k = k + 1;
                    proof {
                        assert(refs@.map(|_i: int, v2: i64| v2 as int) =~= prerefs.map(
                            |_i: int, v2: i64| v2 as int,
                        ).push(v as int));
                        if parse_ints(gf.skip(k as int)) is Some {
                            assert(prerefs.map(|_i: int, v2: i64| v2 as int) + (seq![v as int]
                                + parse_ints(gf.skip(k as int))->Some_0) =~= refs@.map(
                                |_i: int, v2: i64| v2 as int,
                            ) + parse_ints(gf.skip(k as int))->Some_0);
                        }
                    }
                },
                None => {
                    proof {
                        assert(parse_ints(gf.skip(k as int)) is None);
                        assert(parse_ints(gf.skip(1)) is None);
                    }
                    return None;
                },
            }
        }
        proof {
            assert(gf.skip(fields@.len() as int) =~= Seq::<Seq<char>>::empty());
            assert(parse_ints(gf.skip(fields@.len() as int)) == Some(Seq::<int>::empty()));
            assert(refs@.map(|_i: int, v: i64| v as int) + Seq::<int>::empty() =~= refs@.map(
                |_i: int, v: i64| v as int,
            ));
            assert(parse_ints(gf.skip(1)) == Some(refs@.map(|_i: int, v: i64| v as int)));
        }
        Some(WavefrontValue::Face(refs))
    } else {
        proof {
            assert(parse_line(line) is None);
        }
        None
    }
}

/// The characters before the first `c` are clean of it.
proof fn lemma_first_at_clean_prefix(s: Seq<char>, c: char, j: int)
    requires
        first_at(s, c) == j,
        0 <= j < s.len(),
    ensures
        forall|k: int| 0 <= k < j ==> s[k] != c,
    decreases s.len(),
{
    if j > 0 {
        assert(s[0] != c);
        assert(first_at(s.skip(1), c) == j - 1);
        lemma_first_at_clean_prefix(s.skip(1), c, j - 1);
        assert forall|k: int| 0 <= k < j implies s[k] != c by {
            if k > 0 {
                assert(s.skip(1)[k - 1] != c);
                assert(s.skip(1)[k - 1] == s[k]);
            }
        }
    }
}

/// Without a first position there is no occurrence at all.
proof fn lemma_first_at_clean_none(s: Seq<char>, c: char)
    requires
        first_at(s, c) == -1,
    ensures
        forall|k: int| 0 <= k < s.len() ==> s[k] != c,
    decreases s.len(),
{
    if s.len() > 0 {
        assert(s[0] != c);
        assert(first_at(s.skip(1), c) == -1);
        lemma_first_at_clean_none(s.skip(1), c);
        assert forall|k: int| 0 <= k < s.len() implies s[k] != c by {
            if k > 0 {
                assert(s.skip(1)[k - 1] != c);
                assert(s.skip(1)[k - 1] == s[k]);
            }
        }
    }
}

/// Reads the text format back into a model log: one record per line.
/// Succeeds exactly when every line is a well-formed vertex or face
/// line closed by a line break, as the renderer writes them.
pub fn parse_wavefront(s: &str) -> (r: Option<Wavefront>)
    ensures
        r is Some <==> parse_model(s@) is Some,
        r matches Some(w) ==> parse_model(s@) == Some(w@),
{
    let cv = chars_of(s);
    let n = cv.len();
    let mut values: Vec<WavefrontValue> = Vec::new();
    let mut pos: usize = 0;
    proof {
        assert(cv@.skip(0) =~= cv@);
    }
    while pos < n
        invariant
            cv@ == s@,
            n == cv@.len(),
            pos <= n,
            parse_model(s@) == match parse_model(cv@.skip(pos as int)) {
                Some(rest) => Some(values@.map(|_i: int, v: WavefrontValue| v@) + rest),
                None => None::<Seq<MeshEntry>>,
            },
        decreases n - pos,
    {
        let ghost suffix = cv@.skip(pos as int);
        match find_char(&cv, pos, n, '\n') {
            None => {
                proof {
                    assert(suffix =~= cv@.subrange(pos as int, n as int));
                    assert(first_at(suffix, '\n') == -1);
                    assert(suffix.len() > 0);
                    assert(parse_model(suffix) is None);
                }
                return None;
            },
            Some(j) => {
                proof {
                    assert(suffix =~= cv@.subrange(pos as int, n as int));
                    assert(first_at(suffix, '\n') == j - pos);
                    assert(suffix.subrange(0, j - pos as int) =~= cv@.subrange(
                        pos as int,
                        j as int,
                    ));
                    assert(suffix.skip(j - pos as int + 1) =~= cv@.skip(j as int + 1));
                }
                match parse_line_exec(&cv, pos, j) {
                    None => {
                        proof {
                            assert(parse_model(suffix) is None);
                        }
                        return None;
                    },
                    Some(v) => {
                        let ghost prevals = values@;
                        values.push(v);
                        pos = j + 1;
                        proof {
                            assert(values@.map(|_i: int, v2: WavefrontValue| v2@) =~= prevals.map(
                                |_i: int, v2: WavefrontValue| v2@,
                            ).push(v@));
                            if parse_model(cv@.skip(pos as int)) is Some {
                                let rest = parse_model(cv@.skip(pos as int))->Some_0;
                                assert(parse_model(suffix) == Some(seq![v@] + rest));
                                assert(prevals.map(|_i: int, v2: WavefrontValue| v2@) + (seq![
                                    v@] + rest) =~= values@.map(
                                    |_i: int, v2: WavefrontValue| v2@,
                                ) + rest);
                            } else {
                                assert(parse_model(suffix) is None);
                            }
                        }
                    },
                }
            },
        }
    }
    proof {
        assert(cv@.skip(n as int) =~= Seq::<char>::empty());
        assert(parse_model(cv@.skip(n as int)) == Some(Seq::<MeshEntry>::empty()));
        assert(values@.map(|_i: int, v: WavefrontValue| v@) + Seq::<MeshEntry>::empty()
            =~= values@.map(|_i: int, v: WavefrontValue| v@));
    }
    Some(Wavefront { values })
}


/// Every record one extruded segment emits stays within the text
/// format's range.
proof fn lemma_segment_renderable(a: Point3, b: Point3, t: int)
    requires
        in_bounds(a),
        in_bounds(b),
        seg_nondegenerate(a, b),
        0 < t <= COORD_LIMIT,
    ensures
        model_renderable(segment_entries(a, b, t)),
{
    lemma_segment_in_limits(a, b, t);
    assert forall|i: int| 0 <= i < segment_entries(a, b, t).len() implies entry_renderable(
        #[trigger] segment_entries(a, b, t)[i],
    ) by {
        match segment_entries(a, b, t)[i] {
            MeshEntry::Vertex(..) => {},
            MeshEntry::Face(refs) => {
                assert(refs == seq![-1int, -2int, -3int, -4int]);
                assert(forall|j: int|
                    0 <= j < refs.len() ==> -RENDER_LIMIT <= #[trigger] refs[j]
                        <= RENDER_LIMIT);
            },
        }
    }
}

proof fn lemma_way_renderable(way: Seq<Point3>, t: int)
    requires
        way_in_bounds(way),
        way_extrudable(way),
        0 < t <= COORD_LIMIT,
    ensures
        model_renderable(way_entries(way, t)),
    decreases way.len(),
{
    if way.len() >= 2 {
        let pre = way.drop_last();
        if pre.len() >= 2 {
            assert(way_in_bounds(pre)) by {
                assert(forall|i: int| 0 <= i < pre.len() ==> pre[i] == way[i]);
            }
            assert(way_extrudable(pre)) by {
                assert forall|i: int|
                    0 <= i < pre.len() - 1 implies #[trigger] seg_nondegenerate(
                    pre[i],
                    pre[i + 1],
                ) by {
                    assert(pre[i] == way[i] && pre[i + 1] == way[i + 1]);
                    assert(seg_nondegenerate(way[i], way[i + 1]));
                }
            }
            lemma_way_renderable(pre, t);
        } else {
            assert(way_entries(pre, t) =~= Seq::<MeshEntry>::empty());
        }
        let k = way.len() - 2;
        assert(seg_nondegenerate(way[k], way[k + 1]));
        assert(seg_nondegenerate(way[way.len() - 2], way[way.len() - 1]));
        lemma_segment_renderable(way[way.len() - 2], way[way.len() - 1], t);
        let left = way_entries(pre, t);
        let right = segment_entries(way[way.len() - 2], way[way.len() - 1], t);
        assert forall|i: int| 0 <= i < way_entries(way, t).len() implies entry_renderable(
            #[trigger] way_entries(way, t)[i],
        ) by {
            if i < left.len() {
                assert(way_entries(way, t)[i] == left[i]);
            } else {
                assert(way_entries(way, t)[i] == right[i - left.len()]);
            }
        }
    }
}

/// Everything the extruder emits for in-bounds, extrudable ways can
/// be rendered and read back intact: the emitted model lies in the
/// round-trip domain of the text format.
pub proof fn lemma_extruded_model_round_trip(ways: Seq<Seq<Point3>>, t: int)
    requires
        ways_in_bounds(ways),
        ways_extrudable(ways),
        0 < t <= COORD_LIMIT,
    ensures
        model_renderable(model_entries(ways, t)),
        parse_model(render_model(model_entries(ways, t))) == Some(model_entries(ways, t)),
    decreases ways.len(),
{
    if ways.len() == 0 {
        assert(model_entries(ways, t) =~= Seq::<MeshEntry>::empty());
    } else {
        let pre = ways.drop_last();
        assert(ways_in_bounds(pre) && ways_extrudable(pre)) by {
            assert(forall|i: int| 0 <= i < pre.len() ==> pre[i] == ways[i]);
            assert(forall|i: int|
                0 <= i < pre.len() ==> way_in_bounds(#[trigger] pre[i]) && way_extrudable(
                    pre[i],
                ));
        }
        lemma_extruded_model_round_trip(pre, t);
        assert(way_in_bounds(ways.last()) && way_extrudable(ways.last())) by {
            assert(ways[ways.len() - 1] == ways.last());
        }
        lemma_way_renderable(ways.last(), t);
        let left = model_entries(pre, t);
        let right = way_entries(ways.last(), t);
        assert forall|i: int| 0 <= i < model_entries(ways, t).len() implies entry_renderable(
            #[trigger] model_entries(ways, t)[i],
        ) by {
            if i < left.len() {
                assert(model_entries(ways, t)[i] == left[i]);
            } else {
                assert(model_entries(ways, t)[i] == right[i - left.len()]);
            }
        }
    }
    lemma_render_parse_round_trip(model_entries(ways, t));
}

} // verus!
