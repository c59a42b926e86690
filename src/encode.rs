use vstd::prelude::*;

use crate::snapshot::{DiskUsage, HostInfo, NetIface, Prcs, PrcsView, SysInfo};

verus! {

pub open spec fn hex_digit(d: nat) -> char
    recommends
        d < 16,
{
    if d < 10 {
        digit_char(d)
    } else {
        ((87 + d) as u8) as char
    }
}

/// How one character is written inside a JSON string literal.
pub open spec fn escaped_char(c: char) -> Seq<char> {
    if c == '"' {
        seq!['\\', '"']
    } else if c == '\\' {
        seq!['\\', '\\']
    } else if c == '\x08' {
        seq!['\\', 'b']
    } else if c == '\t' {
        seq!['\\', 't']
    } else if c == '\n' {
        seq!['\\', 'n']
    } else if c == '\x0c' {
        seq!['\\', 'f']
    } else if c == '\r' {
        seq!['\\', 'r']
    } else if (c as u32) < 32 {
        seq!['\\', 'u', '0', '0', hex_digit((c as u32 / 16) as nat), hex_digit((c as u32 % 16) as nat)]
    } else {
        seq![c]
    }
}

pub open spec fn escaped(s: Seq<char>) -> Seq<char>
    decreases s.len(),
{
    if s.len() == 0 {
        seq![]
    } else {
        escaped_char(s[0]) + escaped(s.drop_first())
    }
}

/// The JSON string literal for a text: quoted, with quotes, backslashes and
/// control characters escaped.
pub open spec fn json_quoted(s: Seq<char>) -> Seq<char> {
    seq!['"'] + escaped(s) + seq!['"']
}

pub open spec fn hex_value(c: char) -> nat {
    if (c as u32) < 58 {
        ((c as u32) - 48) as nat
    } else {
        ((c as u32) - 87) as nat
    }
}

/// The character that a two-character escape `\\e` stands for.
pub open spec fn short_escape(e: char) -> char {
    if e == 'b' {
        '\x08'
    } else if e == 't' {
        '\t'
    } else if e == 'n' {
        '\n'
    } else if e == 'f' {
        '\x0c'
    } else if e == 'r' {
        '\r'
    } else {
        e
    }
}

/// Reads escaped string text back into the characters it stands for.
pub open spec fn unescaped(t: Seq<char>) -> Seq<char>
    decreases t.len(),
{
    if t.len() == 0 {
        seq![]
    } else if t[0] == '\\' && t.len() >= 6 && t[1] == 'u' {
        seq![((hex_value(t[4]) * 16 + hex_value(t[5])) as u32) as char] + unescaped(
            t.subrange(6, t.len() as int),
        )
    } else if t[0] == '\\' && t.len() >= 2 {
        seq![short_escape(t[1])] + unescaped(t.subrange(2, t.len() as int))
    } else {
        seq![t[0]] + unescaped(t.drop_first())
    }
}

/// Reads a JSON string literal back into its characters.
pub open spec fn unquoted(t: Seq<char>) -> Seq<char> {
    unescaped(t.subrange(1, t.len() - 1))
}

proof fn lemma_hex_round_trip(d: nat)
    requires
        d < 16,
    ensures
        hex_value(hex_digit(d)) == d,
{
    if d < 10 {
        assert(((48 + d) as u8) as char as u32 == 48 + d);
    } else {
        assert(((87 + d) as u8) as char as u32 == 87 + d);
    }
}

proof fn lemma_escaped_round_trip(s: Seq<char>)
    ensures
        unescaped(escaped(s)) == s,
    decreases s.len(),
{
    if s.len() > 0 {
        let c = s[0];
        let e = escaped_char(c);
        let rest = escaped(s.drop_first());
        let t = escaped(s);
        lemma_escaped_round_trip(s.drop_first());
        assert(t == e + rest);
        if e.len() == 1 {
            assert(t.drop_first() =~= rest);
            assert(unescaped(t) =~= s);
        } else if e.len() == 2 {
            assert(t.subrange(2, t.len() as int) =~= rest);
            assert(unescaped(t) =~= s);
        } else {
            let v = c as u32;
            lemma_hex_round_trip((v / 16) as nat);
            lemma_hex_round_trip((v % 16) as nat);
            assert(t.subrange(6, t.len() as int) =~= rest);
            assert(((v / 16) * 16 + v % 16) as u32 == v);
            vstd::utf8::char_u32_cast(c, v);
            assert(unescaped(t) =~= s);
        }
    }
}

/// A text written as a JSON string literal reads back as the same characters,
/// whatever quotes, backslashes or control characters it holds.
pub proof fn lemma_quoted_round_trip(s: Seq<char>)
    ensures
        unquoted(json_quoted(s)) == s,
{
    let q = json_quoted(s);
    assert(q.subrange(1, q.len() - 1) =~= escaped(s));
    lemma_escaped_round_trip(s);
}

/// Relies on serde_json's `Display` of `Value::String`: it writes the text as
/// one JSON string literal, escaping through its fixed table (`"` and `\\` by
/// a backslash, the usual short escapes, other controls as `\u00xx` in lower
/// case hex) and copying every other character.
#[verifier::external_body]
fn quote(s: &String) -> (r: String)
    ensures
        r@ == json_quoted(s@),
{
    serde_json::Value::String(s.clone()).to_string()
}

/// Relies on std's `String::push`: appends one character.
#[verifier::external_body]
fn push_char(out: &mut String, c: char)
    ensures
        final(out)@ == old(out)@.push(c),
{
    out.push(c)
}

pub open spec fn digit_char(d: nat) -> char
    recommends
        d < 10,
{
    ((48 + d) as u8) as char
}

/// The decimal digits of `n`, most significant first, without leading zeros.
pub open spec fn decimal(n: nat) -> Seq<char>
    decreases n,
{
    if n < 10 {
        seq![digit_char(n)]
    } else {
        decimal(n / 10).push(digit_char(n % 10))
    }
}

/// A value in hundredths written as a decimal number with two fraction digits
/// (`1050` is `10.50`).
pub open spec fn centi(n: nat) -> Seq<char> {
    decimal(n / 100).push('.').push(digit_char((n / 10) % 10)).push(digit_char(n % 10))
}

pub open spec fn opt_decimal(o: Option<u64>) -> Seq<char> {
    match o {
        Some(n) => decimal(n as nat),
        None => "null"@,
    }
}

/// The items joined by commas.
pub open spec fn joined(p: Seq<Seq<char>>) -> Seq<char>
    decreases p.len(),
{
    if p.len() == 0 {
        seq![]
    } else if p.len() == 1 {
        p[0]
    } else {
        joined(p.drop_last()) + seq![','] + p.last()
    }
}

pub open spec fn host_json(h: HostInfo) -> Seq<char> {
    "{\"host\":"@ + json_quoted(h.host@) + ",\"os\":"@ + json_quoted(h.os@)
        + ",\"cpu\":{\"name\":"@ + json_quoted(h.cpu_name@) + ",\"cores\":"@
        + opt_decimal(h.cores) + ",\"mhz\":"@ + decimal(h.mhz as nat) + "}}"@
}

pub open spec fn prc_json(p: PrcsView) -> Seq<char> {
    "{\"name\":"@ + json_quoted(p.name) + ",\"mem\":"@ + decimal(p.mem as nat) + ",\"cpu\":"@
        + centi(p.cpu as nat) + ",\"disk_read\":"@ + decimal(p.disk_read as nat)
        + ",\"disk_written\":"@ + decimal(p.disk_written as nat) + ",\"status\":"@
        + json_quoted(p.status) + ",\"is_this_process\":"@ + (if p.is_this_process {
        "true"@
    } else {
        "false"@
    }) + "}"@
}

pub open spec fn disk_json(d: Option<DiskUsage>) -> Seq<char> {
    match d {
        Some(d) => "{\"name\":"@ + json_quoted(d.name@) + ",\"total\":"@ + decimal(d.total as nat)
            + ",\"used\":"@ + decimal(d.used as nat) + "}"@,
        None => "null"@,
    }
}

pub open spec fn net_json(n: NetIface) -> Seq<char> {
    "{\"name\":"@ + json_quoted(n.name@) + ",\"received\":"@ + decimal(n.received as nat)
        + ",\"transmitted\":"@ + decimal(n.transmitted as nat) + "}"@
}

/// The wire text of a snapshot: one JSON object. Memory, disk and network
/// figures are in bytes; loads are percentages with two fraction digits.
pub open spec fn message(s: SysInfo) -> Seq<char> {
    "{\"general\":"@ + host_json(s.general) + ",\"cpu\":["@
        + joined(s.cpu@.map_values(|c: u32| centi(c as nat))) + "],\"mem\":{\"total\":"@
        + decimal(s.mem_total as nat) + ",\"used\":"@ + decimal(s.mem_used as nat)
        + "},\"prc\":["@ + joined(s.processes@.map_values(|p: PrcsView| prc_json(p)))
        + "],\"hdd\":"@ + disk_json(s.disk) + ",\"net\":["@
        + joined(s.net@.map_values(|n: NetIface| net_json(n))) + "]}"@
}

/// The number that a sequence of decimal digits stands for.
pub open spec fn digits_value(s: Seq<char>) -> nat
    decreases s.len(),
{
    if s.len() == 0 {
        0
    } else {
        digits_value(s.drop_last()) * 10 + ((s.last() as u32) - 48) as nat
    }
}

/// The digits written for a number read back as that number, so no number
/// of a snapshot loses anything on the wire.
pub proof fn lemma_decimal_round_trip(n: nat)
    ensures
        digits_value(decimal(n)) == n,
        decimal(n).len() > 0,
    decreases n,
{
    let d = n % 10;
    assert((digit_char(d) as u32) == 48 + d) by {
        assert(((48 + d) as u8) as char as u32 == 48 + d);
    }
    if n >= 10 {
        lemma_decimal_round_trip(n / 10);
        assert(decimal(n).drop_last() =~= decimal(n / 10));
        assert(decimal(n).last() == digit_char(d));
        assert(digits_value(decimal(n)) == (n / 10) * 10 + d);
        assert((n / 10) * 10 + n % 10 == n) by (nonlinear_arith);
    } else {
        assert(decimal(n).drop_last() =~= Seq::<char>::empty());
        assert(decimal(n).last() == digit_char(d));
        assert(digits_value(Seq::<char>::empty()) == 0);
        assert(d == n);
    }
}

/// The number of hundredths that a text `digits.dd` stands for.
pub open spec fn centi_value(s: Seq<char>) -> nat {
    digits_value(s.subrange(0, s.len() - 3)) * 100 + digits_value(s.subrange(s.len() - 2, s.len() as int))
}

/// A load written with two fraction digits reads back as the same number of
/// hundredths.
pub proof fn lemma_centi_round_trip(n: nat)
    ensures
        centi_value(centi(n)) == n,
{
    let c = centi(n);
    lemma_decimal_round_trip(n / 100);
    let q = decimal(n / 100);
    assert(c.subrange(0, c.len() - 3) =~= q);
    let tail = c.subrange(c.len() - 2, c.len() as int);
    let t = (n / 10) % 10;
    let o = n % 10;
    assert(tail =~= seq![digit_char(t), digit_char(o)]);
    assert((digit_char(t) as u32) == 48 + t) by {
        assert(((48 + t) as u8) as char as u32 == 48 + t);
    }
    assert((digit_char(o) as u32) == 48 + o) by {
        assert(((48 + o) as u8) as char as u32 == 48 + o);
    }
    assert(tail.drop_last() =~= seq![digit_char(t)]);
    assert(tail.drop_last().drop_last() =~= Seq::<char>::empty());
    assert(digits_value(Seq::<char>::empty()) == 0);
    assert(digits_value(seq![digit_char(t)]) == t);
    assert(tail.last() == digit_char(o));
    assert(digits_value(tail) == digits_value(tail.drop_last()) * 10 + o);
    assert(digits_value(tail) == t * 10 + o);
    assert((n / 100) * 100 + ((n / 10) % 10) * 10 + n % 10 == n) by (nonlinear_arith);
}

fn push_decimal(out: &mut String, n: u64)
    ensures
        final(out)@ == old(out)@ + decimal(n as nat),
    decreases n,
{
    if n >= 10 {
        push_decimal(out, n / 10);
    }
    let d: u8 = (n % 10) as u8;
    push_char(out, (48 + d) as char);
    proof {
        if n >= 10 {
            assert(old(out)@ + decimal(n as nat) =~= old(out)@ + decimal((n / 10) as nat) + seq![
                digit_char((n % 10) as nat),
            ]);
        }
    }
    assert(final(out)@ =~= old(out)@ + decimal(n as nat));
}

fn push_centi(out: &mut String, n: u32)
    ensures
        final(out)@ == old(out)@ + centi(n as nat),
{
    push_decimal(out, (n / 100) as u64);
    push_char(out, '.');
    let tens: u8 = ((n / 10) % 10) as u8;
    push_char(out, (48 + tens) as char);
    let ones: u8 = (n % 10) as u8;
    push_char(out, (48 + ones) as char);
    assert(final(out)@ =~= old(out)@ + centi(n as nat));
}

fn push_quoted(out: &mut String, s: &String)
    ensures
        final(out)@ == old(out)@ + json_quoted(s@),
{
    let q = quote(s);
    out.append(q.as_str());
}

fn push_host(out: &mut String, h: &HostInfo)
    ensures
        final(out)@ == old(out)@ + host_json(*h),
{
    out.append("{\"host\":");
    push_quoted(out, &h.host);
    out.append(",\"os\":");
    push_quoted(out, &h.os);
    out.append(",\"cpu\":{\"name\":");
    push_quoted(out, &h.cpu_name);
    out.append(",\"cores\":");
    match h.cores {
        Some(c) => push_decimal(out, c),
        None => out.append("null"),
    }
    out.append(",\"mhz\":");
    push_decimal(out, h.mhz);
    out.append("}}");
    assert(final(out)@ =~= old(out)@ + host_json(*h));
}

fn push_prc(out: &mut String, p: &Prcs)
    ensures
        final(out)@ == old(out)@ + prc_json(p@),
{
    out.append("{\"name\":");
    push_quoted(out, &p.name);
    out.append(",\"mem\":");
    push_decimal(out, p.mem);
    out.append(",\"cpu\":");
    push_centi(out, p.cpu);
    out.append(",\"disk_read\":");
    push_decimal(out, p.disk_read);
    out.append(",\"disk_written\":");
    push_decimal(out, p.disk_written);
    out.append(",\"status\":");
    push_quoted(out, &p.status);
    out.append(",\"is_this_process\":");
    if p.is_this_process {
        out.append("true");
    } else {
        out.append("false");
    }
    out.append("}");
    assert(final(out)@ =~= old(out)@ + prc_json(p@));
}

fn push_disk(out: &mut String, d: &Option<DiskUsage>)
    ensures
        final(out)@ == old(out)@ + disk_json(*d),
{
    match d {
        Some(d) => {
            out.append("{\"name\":");
            push_quoted(out, &d.name);
            out.append(",\"total\":");
            push_decimal(out, d.total);
            out.append(",\"used\":");
            push_decimal(out, d.used);
            out.append("}");
        },
        None => out.append("null"),
    }
    assert(final(out)@ =~= old(out)@ + disk_json(*d));
}

fn push_net(out: &mut String, n: &NetIface)
    ensures
        final(out)@ == old(out)@ + net_json(*n),
{
    out.append("{\"name\":");
    push_quoted(out, &n.name);
    out.append(",\"received\":");
    push_decimal(out, n.received);
    out.append(",\"transmitted\":");
    push_decimal(out, n.transmitted);
    out.append("}");
    assert(final(out)@ =~= old(out)@ + net_json(*n));
}

proof fn lemma_joined_push(p: Seq<Seq<char>>, x: Seq<char>)
    ensures
        joined(p.push(x)) == if p.len() == 0 {
            x
        } else {
            joined(p) + seq![','] + x
        },
{
    assert(p.push(x).drop_last() =~= p);
}

fn push_cpu_list(out: &mut String, v: &Vec<u32>)
    ensures
        final(out)@ == old(out)@ + joined(v@.map_values(|c: u32| centi(c as nat))),
{
    let ghost start = out@;
    let mut i: usize = 0;
    while i < v.len()
        invariant
            i <= v.len(),
            out@ == start + joined(v@.subrange(0, i as int).map_values(|c: u32| centi(c as nat))),
        decreases v.len() - i,
    {
        let ghost prev = v@.subrange(0, i as int).map_values(|c: u32| centi(c as nat));
        if i > 0 {
            push_char(out, ',');
        }
        push_centi(out, v[i]);
        proof {
            let f = |c: u32| centi(c as nat);
            assert(v@.subrange(0, i + 1).map_values(f) =~= prev.push(centi(v@[i as int] as nat)));
            lemma_joined_push(prev, centi(v@[i as int] as nat));
            assert(out@ =~= start + joined(v@.subrange(0, i + 1).map_values(f)));
        }
        i = i + 1;
    }
    assert(v@.subrange(0, v.len() as int) =~= v@);
}

fn push_prc_list(out: &mut String, v: &Vec<Prcs>)
    ensures
        final(out)@ == old(out)@ + joined(v@.map_values(|p: Prcs| p@).map_values(|p: PrcsView| prc_json(p))),
{
    let ghost start = out@;
    let mut i: usize = 0;
    while i < v.len()
        invariant
            i <= v.len(),
            out@ == start + joined(v@.subrange(0, i as int).map_values(|p: Prcs| prc_json(p@))),
        decreases v.len() - i,
    {
        let ghost prev = v@.subrange(0, i as int).map_values(|p: Prcs| prc_json(p@));
        if i > 0 {
            push_char(out, ',');
        }
        push_prc(out, &v[i]);
        proof {
            let f = |p: Prcs| prc_json(p@);
            assert(v@.subrange(0, i + 1).map_values(f) =~= prev.push(prc_json(v@[i as int]@)));
            lemma_joined_push(prev, prc_json(v@[i as int]@));
            assert(out@ =~= start + joined(v@.subrange(0, i + 1).map_values(f)));
        }
        i = i + 1;
    }
    assert(v@.subrange(0, v.len() as int).map_values(|p: Prcs| prc_json(p@)) =~= v@.map_values(|p: Prcs| p@).map_values(
        |p: PrcsView| prc_json(p),
    ));
}

fn push_net_list(out: &mut String, v: &Vec<NetIface>)
    ensures
        final(out)@ == old(out)@ + joined(v@.map_values(|n: NetIface| net_json(n))),
{
    let ghost start = out@;
    let mut i: usize = 0;
    while i < v.len()
        invariant
            i <= v.len(),
            out@ == start + joined(v@.subrange(0, i as int).map_values(|n: NetIface| net_json(n))),
        decreases v.len() - i,
    {
        let ghost prev = v@.subrange(0, i as int).map_values(|n: NetIface| net_json(n));
        if i > 0 {
            push_char(out, ',');
        }
        push_net(out, &v[i]);
        proof {
            let f = |n: NetIface| net_json(n);
            assert(v@.subrange(0, i + 1).map_values(f) =~= prev.push(net_json(v@[i as int])));
            lemma_joined_push(prev, net_json(v@[i as int]));
            assert(out@ =~= start + joined(v@.subrange(0, i + 1).map_values(f)));
        }
        i = i + 1;
    }
    assert(v@.subrange(0, v.len() as int) =~= v@);
}

/// The one-line description of a process entry.
pub open spec fn prc_text(p: PrcsView) -> Seq<char> {
    "name: "@ + p.name + ", mem: "@ + decimal(p.mem as nat) + ", cpu: "@ + load_text(p.cpu as nat)
}

/// A value in hundredths written in its shortest form: trailing zeros of the
/// two fraction digits are dropped, and the point too when nothing is left
/// (`150` is `1.5`, `1200` is `12`, `1205` is `12.05`).
pub open spec fn load_text(n: nat) -> Seq<char> {
    if n % 100 == 0 {
        decimal(n / 100)
    } else if n % 10 == 0 {
        decimal(n / 100).push('.').push(digit_char((n / 10) % 10))
    } else {
        centi(n)
    }
}

fn push_load(out: &mut String, n: u32)
    ensures
        final(out)@ == old(out)@ + load_text(n as nat),
{
    if n % 10 != 0 && n % 100 != 0 {
        push_centi(out, n);
    } else {
        push_decimal(out, (n / 100) as u64);
        if n % 100 != 0 {
            push_char(out, '.');
            let tens: u8 = ((n / 10) % 10) as u8;
            push_char(out, (48 + tens) as char);
        }
        assert(final(out)@ =~= old(out)@ + load_text(n as nat));
    }
}

impl Prcs {
    /// A short human-readable description: name, memory in bytes and load in
    /// percent.
    pub fn to_string(&self) -> (r: String)
        ensures
            r@ == prc_text(self@),
    {
        let mut out = String::new();
        out.append("name: ");
        out.append(self.name.as_str());
        out.append(", mem: ");
        push_decimal(&mut out, self.mem);
        out.append(", cpu: ");
        push_load(&mut out, self.cpu);
        assert(out@ =~= prc_text(self@));
        out
    }
}

impl SysInfo {
    /// The wire text of this snapshot (see [`message`]).
    pub fn to_msg(&self) -> (r: String)
        ensures
            r@ == message(*self),
    {
        let mut out = String::new();
        out.append("{\"general\":");
        push_host(&mut out, &self.general);
        out.append(",\"cpu\":[");
        push_cpu_list(&mut out, &self.cpu);
        out.append("],\"mem\":{\"total\":");
        push_decimal(&mut out, self.mem_total);
        out.append(",\"used\":");
        push_decimal(&mut out, self.mem_used);
        out.append("},\"prc\":[");
        push_prc_list(&mut out, &self.processes.0);
        out.append("],\"hdd\":");
        push_disk(&mut out, &self.disk);
        out.append(",\"net\":[");
        push_net_list(&mut out, &self.net);
        out.append("]}");
        assert(out@ =~= message(*self));
        out
    }
}

} // verus!
