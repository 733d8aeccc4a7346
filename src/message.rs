//! The line codec: six `;`-separated fields
//! `node_id;child_sensor_id;command;ack;sub_type;payload`, ended by a newline.
//!
//! Numbers are written in decimal. The payload escapes its reserved bytes:
//! `\` as `\\`, `;` as `\s` and a newline as `\n`.

use vstd::prelude::*;

verus! {

/// Largest payload, in bytes, once unescaped.
pub const MAX_PAYLOAD: usize = 64;

pub const SEP: u8 = 0x3b;

pub const NEWLINE: u8 = 0x0a;

pub const BACKSLASH: u8 = 0x5c;

pub const ZERO: u8 = 0x30;

#[derive(Clone, Copy, Debug, PartialEq, Eq, Structural)]
pub enum Command {
    Presentation,
    SetValue,
    Req,
    Internal,
    Stream,
}

pub open spec fn command_code(c: Command) -> nat {
    match c {
        Command::Presentation => 0,
        Command::SetValue => 1,
        Command::Req => 2,
        Command::Internal => 3,
        Command::Stream => 4,
    }
}

pub open spec fn command_of_code(n: nat) -> Command
    recommends
        n <= 4,
{
    if n == 0 {
        Command::Presentation
    } else if n == 1 {
        Command::SetValue
    } else if n == 2 {
        Command::Req
    } else if n == 3 {
        Command::Internal
    } else {
        Command::Stream
    }
}

impl Command {
    /// The protocol number of the command.
    pub fn code(&self) -> (r: u8)
        ensures
            r as nat == command_code(*self),
    {
        match self {
            Command::Presentation => 0,
            Command::SetValue => 1,
            Command::Req => 2,
            Command::Internal => 3,
            Command::Stream => 4,
        }
    }

    /// The command with the given protocol number, if there is one.
    pub fn from_code(n: u8) -> (r: Option<Command>)
        ensures
            n <= 4 ==> r == Some(command_of_code(n as nat)),
            n > 4 ==> r is None,
    {
        if n == 0 {
            Some(Command::Presentation)
        } else if n == 1 {
            Some(Command::SetValue)
        } else if n == 2 {
            Some(Command::Req)
        } else if n == 3 {
            Some(Command::Internal)
        } else if n == 4 {
            Some(Command::Stream)
        } else {
            None
        }
    }
}

#[derive(Clone, Copy, Debug, PartialEq, Eq, Structural)]
pub enum DecodeError {
    /// Not six fields, a field that is not a number, or a bad escape.
    Malformed,
    /// A number beyond the range of its field.
    FieldOutOfRange,
    /// A payload longer than `MAX_PAYLOAD` bytes.
    TooLong,
}

#[derive(Clone, Debug, PartialEq, Eq)]
pub struct Message {
    pub node_id: u8,
    pub child_sensor_id: u8,
    pub command: Command,
    pub ack: bool,
    pub sub_type: u8,
    pub payload: Vec<u8>,
}

/// The value of a message, with its payload as a sequence of bytes.
pub struct MessageView {
    pub node_id: u8,
    pub child_sensor_id: u8,
    pub command: Command,
    pub ack: bool,
    pub sub_type: u8,
    pub payload: Seq<u8>,
}

impl View for Message {
    type V = MessageView;

    open spec fn view(&self) -> MessageView {
        MessageView {
            node_id: self.node_id,
            child_sensor_id: self.child_sensor_id,
            command: self.command,
            ack: self.ack,
            sub_type: self.sub_type,
            payload: self.payload@,
        }
    }
}

/// A message that the codec can carry: its payload is within bounds.
pub open spec fn valid_message(m: MessageView) -> bool {
    m.payload.len() <= MAX_PAYLOAD
}

// ---- decimal numbers ----

pub open spec fn is_digit(b: u8) -> bool {
    ZERO <= b && b <= ZERO + 9
}

pub open spec fn all_digits(s: Seq<u8>) -> bool {
    forall|i: int| 0 <= i < s.len() ==> is_digit(#[trigger] s[i])
}

/// The value of a string of decimal digits, most significant first.
pub open spec fn digits_value(s: Seq<u8>) -> nat
    decreases s.len(),
{
    if s.len() == 0 {
        0
    } else {
        digits_value(s.drop_last()) * 10 + (s.last() - ZERO) as nat
    }
}

/// A field holding a number: `None` unless it is a non-empty string of digits.
pub open spec fn parse_number(s: Seq<u8>) -> Option<nat> {
    if s.len() > 0 && all_digits(s) {
        Some(digits_value(s))
    } else {
        None
    }
}

/// The decimal writing of `n`, without leading zeros.
pub open spec fn decimal(n: nat) -> Seq<u8>
    decreases n,
{
    if n < 10 {
        seq![(ZERO + n) as u8]
    } else {
        decimal(n / 10).push((ZERO + n % 10) as u8)
    }
}

pub proof fn lemma_decimal(n: nat)
    ensures
        decimal(n).len() > 0,
        all_digits(decimal(n)),
        digits_value(decimal(n)) == n,
    decreases n,
{
    if n >= 10 {
        lemma_decimal(n / 10);
        let d = decimal(n);
        assert(d.drop_last() =~= decimal(n / 10));
        assert(all_digits(d)) by {
            assert forall|i: int| 0 <= i < d.len() implies is_digit(#[trigger] d[i]) by {
                if i < d.len() - 1 {
                    assert(d[i] == decimal(n / 10)[i]);
                }
            }
        }
        assert(d.last() == (ZERO + n % 10) as u8);
        assert((d.last() - ZERO) as nat == n % 10);
        assert(n == (n / 10) * 10 + n % 10);
        assert(digits_value(d) == digits_value(decimal(n / 10)) * 10 + (d.last() - ZERO) as nat);
    } else {
        let d = decimal(n);
        assert(d.drop_last() =~= Seq::<u8>::empty());
        assert(d.last() == (ZERO + n) as u8);
        assert(digits_value(d) == digits_value(d.drop_last()) * 10 + (d.last() - ZERO) as nat);
    }
}

/// Appends the decimal writing of `n` to `out`.
fn push_decimal(out: &mut Vec<u8>, n: u8)
    ensures
        final(out)@ == old(out)@ + decimal(n as nat),
{
    let ghost o = old(out)@;
    proof {
        reveal_with_fuel(decimal, 3);
    }
    if n >= 100 {
        out.push(ZERO + n / 100);
        out.push(ZERO + (n / 10) % 10);
        out.push(ZERO + n % 10);
        assert((n as nat / 10) / 10 == n / 100);
        assert(decimal(n as nat) =~= seq![(ZERO + n / 100) as u8, (ZERO + (n / 10) % 10) as u8, (ZERO + n % 10) as u8]);
    } else if n >= 10 {
        out.push(ZERO + n / 10);
        out.push(ZERO + n % 10);
        assert(decimal(n as nat) =~= seq![(ZERO + n / 10) as u8, (ZERO + n % 10) as u8]);
    } else {
        out.push(ZERO + n);
    }
    assert(out@ =~= o + decimal(n as nat));
}


// ---- payload escapes ----

pub const LOWER_N: u8 = 0x6e;

pub const LOWER_S: u8 = 0x73;

/// The escaped writing of one payload byte.
pub open spec fn escape_byte(b: u8) -> Seq<u8> {
    if b == BACKSLASH {
        seq![BACKSLASH, BACKSLASH]
    } else if b == SEP {
        seq![BACKSLASH, LOWER_S]
    } else if b == NEWLINE {
        seq![BACKSLASH, LOWER_N]
    } else {
        seq![b]
    }
}

pub open spec fn escape(s: Seq<u8>) -> Seq<u8>
    decreases s.len(),
{
    if s.len() == 0 {
        Seq::empty()
    } else {
        escape(s.drop_last()) + escape_byte(s.last())
    }
}

/// The byte that an escape `\c` stands for.
pub open spec fn escaped_byte(c: u8) -> Option<u8> {
    if c == BACKSLASH {
        Some(BACKSLASH)
    } else if c == LOWER_S {
        Some(SEP)
    } else if c == LOWER_N {
        Some(NEWLINE)
    } else {
        None
    }
}

pub open spec fn prepend(p: Seq<u8>, o: Option<Seq<u8>>) -> Option<Seq<u8>> {
    match o {
        Some(r) => Some(p + r),
        None => None,
    }
}

/// The payload that an escaped field stands for; `None` on a bad escape or
/// on a raw separator or newline.
pub open spec fn unescape(s: Seq<u8>) -> Option<Seq<u8>>
    decreases s.len(),
{
    if s.len() == 0 {
        Some(Seq::empty())
    } else if s[0] == BACKSLASH {
        if s.len() < 2 {
            None
        } else {
            match escaped_byte(s[1]) {
                Some(b) => prepend(seq![b], unescape(s.subrange(2, s.len() as int))),
                None => None,
            }
        }
    } else if s[0] == SEP || s[0] == NEWLINE {
        None
    } else {
        prepend(seq![s[0]], unescape(s.drop_first()))
    }
}

/// `s` holds no byte `d`.
pub open spec fn lacks(s: Seq<u8>, d: u8) -> bool {
    forall|i: int| 0 <= i < s.len() ==> #[trigger] s[i] != d
}

proof fn lemma_unescape_escape_then(s: Seq<u8>, u: Seq<u8>)
    ensures
        unescape(escape(s) + u) == prepend(s, unescape(u)),
    decreases s.len(),
{
    if s.len() == 0 {
        assert(escape(s) + u =~= u);
        match unescape(u) {
            Some(r) => assert(s + r =~= r),
            None => {},
        }
    } else {
        let p = s.drop_last();
        let b = s.last();
        assert(escape(s) + u =~= escape(p) + (escape_byte(b) + u));
        lemma_unescape_escape_then(p, escape_byte(b) + u);
        let t = escape_byte(b) + u;
        if b == BACKSLASH || b == SEP || b == NEWLINE {
            assert(t.subrange(2, t.len() as int) =~= u);
        } else {
            assert(t.drop_first() =~= u);
        }
        assert(unescape(t) == prepend(seq![b], unescape(u)));
        match unescape(u) {
            Some(r) => assert(p + (seq![b] + r) =~= s + r),
            None => {},
        }
    }
}

/// Escaping is undone by unescaping.
pub proof fn lemma_unescape_escape(s: Seq<u8>)
    ensures
        unescape(escape(s)) == Some(s),
{
    lemma_unescape_escape_then(s, Seq::empty());
    assert(escape(s) + Seq::empty() =~= escape(s));
    assert(s + Seq::<u8>::empty() =~= s);
}

/// Escaped text holds no raw separator and no raw newline.
pub proof fn lemma_escape_lacks(s: Seq<u8>)
    ensures
        lacks(escape(s), SEP),
        lacks(escape(s), NEWLINE),
    decreases s.len(),
{
    if s.len() > 0 {
        lemma_escape_lacks(s.drop_last());
        let e = escape(s);
        let q = escape(s.drop_last());
        assert forall|i: int| 0 <= i < e.len() implies #[trigger] e[i] != SEP && e[i] != NEWLINE by {
            if i < q.len() {
                assert(e[i] == q[i]);
            }
        }
    }
}

fn push_escaped(out: &mut Vec<u8>, s: &Vec<u8>)
    ensures
        final(out)@ == old(out)@ + escape(s@),
{
    let ghost o = old(out)@;
    let mut i: usize = 0;
    assert(s@.subrange(0, 0) =~= Seq::<u8>::empty());
    assert(o + Seq::<u8>::empty() =~= o);
    while i < s.len()
        invariant
            i <= s.len(),
            out@ == o + escape(s@.subrange(0, i as int)),
        decreases s.len() - i,
    {
        let b = s[i];
        let ghost before = out@;
        if b == BACKSLASH {
            out.push(BACKSLASH);
            out.push(BACKSLASH);
        } else if b == SEP {
            out.push(BACKSLASH);
            out.push(LOWER_S);
        } else if b == NEWLINE {
            out.push(BACKSLASH);
            out.push(LOWER_N);
        } else {
            out.push(b);
        }
        assert(out@ =~= before + escape_byte(b));
        let ghost t = s@.subrange(0, i + 1);
        assert(t.drop_last() =~= s@.subrange(0, i as int));
        i = i + 1;
        assert(out@ =~= o + escape(s@.subrange(0, i as int)));
    }
    assert(s@.subrange(0, s.len() as int) =~= s@);
}

fn unescape_range(s: &Vec<u8>) -> (r: Option<Vec<u8>>)
    ensures
        match r {
            Some(v) => unescape(s@) == Some(v@),
            None => unescape(s@) is None,
        },
{
    let n = s.len();
    let mut out: Vec<u8> = Vec::new();
    let mut i: usize = 0;
    proof {
        assert(s@.subrange(0, n as int) =~= s@);
        match unescape(s@) {
            Some(r) => assert(Seq::<u8>::empty() + r =~= r),
            None => {},
        }
    }
    while i < n
        invariant
            n == s.len(),
            i <= n,
            unescape(s@) == prepend(out@, unescape(s@.subrange(i as int, n as int))),
        decreases n - i,
    {
        let ghost t = s@.subrange(i as int, n as int);
        let ghost before = out@;
        let b = s[i];
        if b == BACKSLASH {
            if i + 1 >= n {
                return None;
            }
            let c = s[i + 1];
            let e: u8;
            if c == BACKSLASH {
                e = BACKSLASH;
            } else if c == LOWER_S {
                e = SEP;
            } else if c == LOWER_N {
                e = NEWLINE;
            } else {
                return None;
            }
            assert(t.subrange(2, t.len() as int) =~= s@.subrange(i + 2, n as int));
            out.push(e);
            i = i + 2;
            proof {
                match unescape(s@.subrange(i as int, n as int)) {
                    Some(r) => assert(before + (seq![e] + r) =~= out@ + r),
                    None => {},
                }
            }
        } else if b == SEP || b == NEWLINE {
            return None;
        } else {
            assert(t.drop_first() =~= s@.subrange(i + 1, n as int));
            out.push(b);
            i = i + 1;
            proof {
                match unescape(s@.subrange(i as int, n as int)) {
                    Some(r) => assert(before + (seq![b] + r) =~= out@ + r),
                    None => {},
                }
            }
        }
    }
    assert(s@.subrange(n as int, n as int) =~= Seq::<u8>::empty());
    assert(out@ + Seq::<u8>::empty() =~= out@);
    Some(out)
}


// ---- fields ----

/// Index of the first byte `d` in `s`, or the length of `s` if it has none.
pub open spec fn first_index_of(s: Seq<u8>, d: u8) -> nat
    decreases s.len(),
{
    if s.len() == 0 {
        0
    } else if s[0] == d {
        0
    } else {
        1 + first_index_of(s.drop_first(), d)
    }
}

/// The parts of `s` between the bytes `d`.
pub open spec fn split_on(s: Seq<u8>, d: u8) -> Seq<Seq<u8>>
    decreases s.len(),
{
    let k = first_index_of(s, d);
    if k >= s.len() {
        seq![s]
    } else {
        seq![s.take(k as int)] + split_on(s.skip(k + 1 as int), d)
    }
}

proof fn lemma_first_index_of(a: Seq<u8>, b: Seq<u8>, d: u8)
    requires
        lacks(a, d),
    ensures
        first_index_of(a + b, d) == a.len() + first_index_of(b, d),
    decreases a.len(),
{
    if a.len() > 0 {
        assert((a + b).drop_first() =~= a.drop_first() + b);
        lemma_first_index_of(a.drop_first(), b, d);
    } else {
        assert(a + b =~= b);
    }
}

/// A part free of `d`, followed by `d`, splits off whole.
pub proof fn lemma_split_on_first(a: Seq<u8>, r: Seq<u8>, d: u8)
    requires
        lacks(a, d),
    ensures
        split_on(a + seq![d] + r, d) == seq![a] + split_on(r, d),
{
    let s = a + seq![d] + r;
    assert(a + seq![d] + r =~= a + (seq![d] + r));
    lemma_first_index_of(a, seq![d] + r, d);
    assert(first_index_of(s, d) == a.len());
    assert(s.take(a.len() as int) =~= a);
    assert(s.skip(a.len() + 1 as int) =~= r);
}

pub proof fn lemma_split_on_last(a: Seq<u8>, d: u8)
    requires
        lacks(a, d),
    ensures
        split_on(a, d) == seq![a],
{
    lemma_first_index_of(a, Seq::empty(), d);
    assert(a + Seq::empty() =~= a);
}

/// Splits the first `n` bytes of `s` at every byte `d`.
pub fn split_at(s: &[u8], n: usize, d: u8) -> (r: Vec<Vec<u8>>)
    requires
        n <= s@.len(),
    ensures
        r@.len() == split_on(s@.take(n as int), d).len(),
        forall|i: int| 0 <= i < r@.len() ==> (#[trigger] r@[i])@ == split_on(s@.take(n as int), d)[i],
{
    let ghost whole = s@.take(n as int);
    let mut done: Vec<Vec<u8>> = Vec::new();
    let mut cur: Vec<u8> = Vec::new();
    let mut i: usize = 0;
    proof {
        assert(cur@ + whole.skip(0) =~= whole);
    }
    while i < n
        invariant
            n <= s@.len(),
            whole == s@.take(n as int),
            i <= n,
            lacks(cur@, d),
            split_on(whole, d) =~= done@.map_values(|v: Vec<u8>| v@) + split_on(cur@ + whole.skip(i as int), d),
        decreases n - i,
    {
        let b = s[i];
        if b == d {
            proof {
                assert(cur@ + whole.skip(i as int) =~= cur@ + seq![d] + whole.skip(i + 1));
                lemma_split_on_first(cur@, whole.skip(i + 1), d);
                assert(Seq::<u8>::empty() + whole.skip(i + 1) =~= whole.skip(i + 1));
            }
            let ghost old_done = done@;
            let ghost c = cur@;
            done.push(cur);
            cur = Vec::new();
            proof {
                assert(done@.map_values(|v: Vec<u8>| v@) =~= old_done.map_values(|v: Vec<u8>| v@)
                    + seq![c]);
            }
        } else {
            proof {
                assert(cur@ + whole.skip(i as int) =~= cur@.push(b) + whole.skip(i + 1));
            }
            cur.push(b);
        }
        i = i + 1;
    }
    proof {
        assert(cur@ + whole.skip(n as int) =~= cur@);
        lemma_split_on_last(cur@, d);
    }
    let ghost old_done = done@;
    let ghost c = cur@;
    done.push(cur);
    proof {
        assert(done@.map_values(|v: Vec<u8>| v@) =~= old_done.map_values(|v: Vec<u8>| v@) + seq![c]);
        assert(split_on(whole, d) =~= done@.map_values(|v: Vec<u8>| v@));
        assert forall|i: int| 0 <= i < done@.len() implies done@[i]@ == split_on(whole, d)[i] by {
            assert(done@.map_values(|v: Vec<u8>| v@)[i] == done@[i]@);
        }
    }
    done
}


// ---- the codec ----

/// A number field no greater than `max`.
pub open spec fn number_field(f: Seq<u8>, max: nat) -> Result<nat, DecodeError> {
    match parse_number(f) {
        Some(v) => if v <= max {
            Ok(v)
        } else {
            Err(DecodeError::FieldOutOfRange)
        },
        None => Err(DecodeError::Malformed),
    }
}

pub open spec fn payload_field(f: Seq<u8>) -> Result<Seq<u8>, DecodeError> {
    match unescape(f) {
        Some(p) => if p.len() <= MAX_PAYLOAD {
            Ok(p)
        } else {
            Err(DecodeError::TooLong)
        },
        None => Err(DecodeError::Malformed),
    }
}

/// A line without its final newline, if it has one.
pub open spec fn strip_newline(line: Seq<u8>) -> Seq<u8> {
    if line.len() > 0 && line.last() == NEWLINE {
        line.drop_last()
    } else {
        line
    }
}

/// The message that six fields hold; the first field in order that is
/// wrong decides the error.
pub open spec fn decode_fields(fs: Seq<Seq<u8>>) -> Result<MessageView, DecodeError> {
    if fs.len() != 6 {
        Err(DecodeError::Malformed)
    } else {
        match number_field(fs[0], 255) {
            Err(e) => Err(e),
            Ok(node) => match number_field(fs[1], 255) {
                Err(e) => Err(e),
                Ok(child) => match number_field(fs[2], 4) {
                    Err(e) => Err(e),
                    Ok(cmd) => match number_field(fs[3], 1) {
                        Err(e) => Err(e),
                        Ok(ack) => match number_field(fs[4], 255) {
                            Err(e) => Err(e),
                            Ok(sub) => match payload_field(fs[5]) {
                                Err(e) => Err(e),
                                Ok(p) => Ok(
                                    MessageView {
                                        node_id: node as u8,
                                        child_sensor_id: child as u8,
                                        command: command_of_code(cmd),
                                        ack: ack == 1,
                                        sub_type: sub as u8,
                                        payload: p,
                                    },
                                ),
                            },
                        },
                    },
                },
            },
        }
    }
}

/// What a line decodes to.
pub open spec fn spec_decode(line: Seq<u8>) -> Result<MessageView, DecodeError> {
    decode_fields(split_on(strip_newline(line), SEP))
}

/// The line that encodes a message, newline included.
pub open spec fn spec_encode(m: MessageView) -> Seq<u8> {
    decimal(m.node_id as nat) + seq![SEP] + decimal(m.child_sensor_id as nat) + seq![SEP]
        + decimal(command_code(m.command)) + seq![SEP] + decimal(
        if m.ack {
            1
        } else {
            0
        },
    ) + seq![SEP] + decimal(m.sub_type as nat) + seq![SEP] + escape(m.payload) + seq![NEWLINE]
}

fn number_of(f: &Vec<u8>, max: u32) -> (r: Result<u32, DecodeError>)
    requires
        max <= 255,
    ensures
        match r {
            Ok(v) => number_field(f@, max as nat) == Ok::<nat, DecodeError>(v as nat),
            Err(e) => number_field(f@, max as nat) == Err::<nat, DecodeError>(e),
        },
{
    let n = f.len();
    if n == 0 {
        return Err(DecodeError::Malformed);
    }
    // `acc` holds the value read so far, held at 256 once it is beyond any field.
    let mut acc: u32 = 0;
    let mut i: usize = 0;
    while i < n
        invariant
            n == f@.len(),
            i <= n,
            all_digits(f@.take(i as int)),
            acc as nat == if digits_value(f@.take(i as int)) < 256 {
                digits_value(f@.take(i as int))
            } else {
                256
            },
        decreases n - i,
    {
        let b = f[i];
        if b < ZERO || b > ZERO + 9 {
            assert(!all_digits(f@)) by {
                assert(!is_digit(f@[i as int]));
            }
            return Err(DecodeError::Malformed);
        }
        let ghost t = f@.take(i + 1);
        assert(t.drop_last() =~= f@.take(i as int));
        let ghost prev = digits_value(f@.take(i as int));
        assert(digits_value(t) == prev * 10 + (b - ZERO) as nat);
        if acc < 256 {
            acc = acc * 10 + (b - ZERO) as u32;
            if acc > 256 {
                acc = 256;
            }
        }
        i = i + 1;
        assert(all_digits(f@.take(i as int))) by {
            assert forall|j: int| 0 <= j < i implies is_digit(#[trigger] f@.take(i as int)[j]) by {
                if j < i - 1 {
                    assert(f@.take(i as int)[j] == f@.take(i - 1)[j]);
                }
            }
        }
    }
    assert(f@.take(n as int) =~= f@);
    if acc > max {
        Err(DecodeError::FieldOutOfRange)
    } else {
        Ok(acc)
    }
}

impl Message {
    /// A copy of this message.
    pub fn duplicate(&self) -> (r: Message)
        ensures
            r@ == self@,
    {
        let payload = self.payload.clone();
        assert(payload@ =~= self.payload@);
        Message {
            node_id: self.node_id,
            child_sensor_id: self.child_sensor_id,
            command: self.command,
            ack: self.ack,
            sub_type: self.sub_type,
            payload,
        }
    }

    /// The line that carries this message, newline included.
    pub fn encode(&self) -> (r: Vec<u8>)
        ensures
            r@ == spec_encode(self@),
    {
        let mut out: Vec<u8> = Vec::new();
        push_decimal(&mut out, self.node_id);
        out.push(SEP);
        push_decimal(&mut out, self.child_sensor_id);
        out.push(SEP);
        push_decimal(&mut out, self.command.code());
        out.push(SEP);
        push_decimal(&mut out, if self.ack { 1 } else { 0 });
        out.push(SEP);
        push_decimal(&mut out, self.sub_type);
        out.push(SEP);
        push_escaped(&mut out, &self.payload);
        out.push(NEWLINE);
        assert(out@ =~= spec_encode(self@));
        out
    }

    /// Decodes one line, with or without its final newline.
    pub fn decode(line: &[u8]) -> (r: Result<Message, DecodeError>)
        ensures
            match r {
                Ok(m) => spec_decode(line@) == Ok::<MessageView, DecodeError>(m@),
                Err(e) => spec_decode(line@) == Err::<MessageView, DecodeError>(e),
            },
    {
        let mut n = line.len();
        if n > 0 && line[n - 1] == NEWLINE {
            n = n - 1;
        }
        assert(line@.take(n as int) =~= strip_newline(line@));
        let fs = split_at(line, n, SEP);
        if fs.len() != 6 {
            return Err(DecodeError::Malformed);
        }
        let node = match number_of(&fs[0], 255) {
            Ok(v) => v,
            Err(e) => return Err(e),
        };
        let child = match number_of(&fs[1], 255) {
            Ok(v) => v,
            Err(e) => return Err(e),
        };
        let cmd = match number_of(&fs[2], 4) {
            Ok(v) => v,
            Err(e) => return Err(e),
        };
        let ack = match number_of(&fs[3], 1) {
            Ok(v) => v,
            Err(e) => return Err(e),
        };
        let sub = match number_of(&fs[4], 255) {
            Ok(v) => v,
            Err(e) => return Err(e),
        };
        let payload = match unescape_range(&fs[5]) {
            Some(p) => p,
            None => return Err(DecodeError::Malformed),
        };
        if payload.len() > MAX_PAYLOAD {
            return Err(DecodeError::TooLong);
        }
        let command = match Command::from_code(cmd as u8) {
            Some(c) => c,
            None => return Err(DecodeError::FieldOutOfRange),
        };
        let m = Message {
            node_id: node as u8,
            child_sensor_id: child as u8,
            command,
            ack: ack == 1,
            sub_type: sub as u8,
            payload,
        };
        Ok(m)
    }
}

proof fn lemma_digits_lacks(s: Seq<u8>)
    requires
        all_digits(s),
    ensures
        lacks(s, SEP),
        lacks(s, NEWLINE),
{
    assert forall|i: int| 0 <= i < s.len() implies #[trigger] s[i] != SEP && s[i] != NEWLINE by {
        assert(is_digit(s[i]));
    }
}

proof fn lemma_number_field_decimal(n: nat, max: nat)
    requires
        n <= max,
    ensures
        number_field(decimal(n), max) == Ok::<nat, DecodeError>(n),
        lacks(decimal(n), SEP),
        lacks(decimal(n), NEWLINE),
{
    lemma_decimal(n);
    lemma_digits_lacks(decimal(n));
}

/// An encoded line ends in its one newline.
pub proof fn lemma_encode_shape(m: MessageView)
    ensures
        spec_encode(m).len() > 0,
        spec_encode(m).last() == NEWLINE,
        lacks(spec_encode(m).drop_last(), NEWLINE),
{
    let a = if m.ack {
        1nat
    } else {
        0nat
    };
    lemma_number_field_decimal(m.node_id as nat, 255);
    lemma_number_field_decimal(m.child_sensor_id as nat, 255);
    lemma_number_field_decimal(command_code(m.command), 4);
    lemma_number_field_decimal(a, 1);
    lemma_number_field_decimal(m.sub_type as nat, 255);
    lemma_escape_lacks(m.payload);
    let e = spec_encode(m);
    let body = decimal(m.node_id as nat) + seq![SEP] + decimal(m.child_sensor_id as nat) + seq![SEP]
        + decimal(command_code(m.command)) + seq![SEP] + decimal(a) + seq![SEP] + decimal(
        m.sub_type as nat,
    ) + seq![SEP] + escape(m.payload);
    assert(e =~= body + seq![NEWLINE]);
    assert(e.drop_last() =~= body);
}

/// Decoding the encoding of a valid message gives the message back.
#[verifier::rlimit(40)]
pub proof fn lemma_decode_encode(m: MessageView)
    requires
        valid_message(m),
    ensures
        spec_decode(spec_encode(m)) == Ok::<MessageView, DecodeError>(m),
{
    let a = if m.ack {
        1nat
    } else {
        0nat
    };
    let f0 = decimal(m.node_id as nat);
    let f1 = decimal(m.child_sensor_id as nat);
    let f2 = decimal(command_code(m.command));
    let f3 = decimal(a);
    let f4 = decimal(m.sub_type as nat);
    let f5 = escape(m.payload);
    lemma_number_field_decimal(m.node_id as nat, 255);
    lemma_number_field_decimal(m.child_sensor_id as nat, 255);
    lemma_number_field_decimal(command_code(m.command), 4);
    lemma_number_field_decimal(a, 1);
    lemma_number_field_decimal(m.sub_type as nat, 255);
    lemma_escape_lacks(m.payload);
    lemma_unescape_escape(m.payload);
    assert(payload_field(f5) == Ok::<Seq<u8>, DecodeError>(m.payload));
    let r4 = f5;
    let r3 = f4 + seq![SEP] + r4;
    let r2 = f3 + seq![SEP] + r3;
    let r1 = f2 + seq![SEP] + r2;
    let r0 = f1 + seq![SEP] + r1;
    let body = f0 + seq![SEP] + r0;
    let line = spec_encode(m);
    assert(line =~= body + seq![NEWLINE]);
    assert((body + seq![NEWLINE]).drop_last() =~= body);
    assert(strip_newline(line) == body);
    lemma_split_on_last(f5, SEP);
    lemma_split_on_first(f4, r4, SEP);
    lemma_split_on_first(f3, r3, SEP);
    lemma_split_on_first(f2, r2, SEP);
    lemma_split_on_first(f1, r1, SEP);
    lemma_split_on_first(f0, r0, SEP);
    let fs = split_on(body, SEP);
    assert(fs =~= seq![f0, f1, f2, f3, f4, f5]);
    assert(command_of_code(command_code(m.command)) == m.command);
    assert(decode_fields(fs) == Ok::<MessageView, DecodeError>(m));
}

} // verus!
