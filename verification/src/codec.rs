//! The canonical line codec of the backup format.
//!
//! Each line of a backup file is one compact JSON object. A record line
//! carries the six prompt fields in a fixed order; the optional header line
//! wraps the snapshot metadata under the reserved `_meta` key. The encoders
//! below produce exactly this canonical form, and the parsers accept it,
//! rejecting everything else. Classification of a header line is structural:
//! a line is a header exactly when it opens with the `_meta` member, which a
//! record line never does, whatever its `content` field holds.

use vstd::prelude::*;

use crate::prompt::PromptV;

verus! {

/// Mathematical model of the header record of one export snapshot.
#[verifier::ext_equal]
pub ghost struct MetaV {
    pub version: Seq<char>,
    pub count: nat,
    pub exported_at: Seq<char>,
    pub schema_version: int,
}

// ---------------------------------------------------------------------------
// Encoding
// ---------------------------------------------------------------------------
/// The hexadecimal digit for a value below 16, lower case.
pub open spec fn hex_digit(n: int) -> char {
    if n < 10 {
        ((48 + n) as u8) as char
    } else {
        ((87 + n) as u8) as char
    }
}

/// JSON escape of one character: the two-character escapes of the JSON
/// grammar, `\u00XX` for the remaining control characters, and the character
/// itself otherwise.
pub open spec fn esc(c: char) -> Seq<char> {
    if c == '"' {
        seq!['\\', '"']
    } else if c == '\\' {
        seq!['\\', '\\']
    } else if c == '\u{8}' {
        seq!['\\', 'b']
    } else if c == '\u{c}' {
        seq!['\\', 'f']
    } else if c == '\n' {
        seq!['\\', 'n']
    } else if c == '\r' {
        seq!['\\', 'r']
    } else if c == '\t' {
        seq!['\\', 't']
    } else if (c as u32) < 0x20 {
        seq!['\\', 'u', '0', '0', hex_digit((c as u32) as int / 16), hex_digit(
            (c as u32) as int % 16,
        )]
    } else {
        seq![c]
    }
}

/// The escaped body of a JSON string literal.
pub open spec fn enc_str_body(s: Seq<char>) -> Seq<char>
    decreases s.len(),
{
    if s.len() == 0 {
        Seq::empty()
    } else {
        esc(s[0]) + enc_str_body(s.drop_first())
    }
}

/// A JSON string literal: quote, escaped body, quote.
pub open spec fn enc_string(s: Seq<char>) -> Seq<char> {
    seq!['"'] + enc_str_body(s) + seq!['"']
}

/// A JSON string literal or `null`.
pub open spec fn enc_opt_str(o: Option<Seq<char>>) -> Seq<char> {
    match o {
        Some(s) => enc_string(s),
        None => seq!['n', 'u', 'l', 'l'],
    }
}

/// Decimal digits of a non-negative integer, no sign, no leading zero.
pub open spec fn enc_uint(n: nat) -> Seq<char>
    decreases n,
{
    if n < 10 {
        seq![hex_digit(n as int)]
    } else {
        enc_uint(n / 10) + seq![hex_digit((n % 10) as int)]
    }
}

/// Decimal digits with a sign for negative values.
pub open spec fn enc_int(v: int) -> Seq<char> {
    if v < 0 {
        seq!['-'] + enc_uint((-v) as nat)
    } else {
        enc_uint(v as nat)
    }
}

/// The tail of a JSON string array: `,"x"` for each further element.
pub open spec fn enc_tags_rest(ts: Seq<Seq<char>>) -> Seq<char>
    decreases ts.len(),
{
    if ts.len() == 0 {
        Seq::empty()
    } else {
        seq![','] + enc_string(ts[0]) + enc_tags_rest(ts.drop_first())
    }
}

/// A JSON array of string literals.
pub open spec fn enc_tags(ts: Seq<Seq<char>>) -> Seq<char> {
    if ts.len() == 0 {
        seq!['[', ']']
    } else {
        seq!['['] + enc_string(ts[0]) + enc_tags_rest(ts.drop_first()) + seq![']']
    }
}

/// The canonical record line of one prompt.
pub open spec fn enc_prompt(p: PromptV) -> Seq<char> {
    "{\"id\":"@ + enc_string(p.id) + ",\"title\":"@ + enc_string(p.title) + ",\"content\":"@
        + enc_string(p.content) + ",\"description\":"@ + enc_opt_str(p.description)
        + ",\"category\":"@ + enc_opt_str(p.category) + ",\"tags\":"@ + enc_tags(p.tags) + "}"@
}

/// The canonical header line of one export snapshot.
pub open spec fn enc_meta(m: MetaV) -> Seq<char> {
    "{\"_meta\":{\"version\":"@ + enc_string(m.version) + ",\"count\":"@ + enc_uint(m.count)
        + ",\"exported_at\":"@ + enc_string(m.exported_at) + ",\"schema_version\":"@ + enc_int(
        m.schema_version,
    ) + "}}"@
}

/// Escaping distributes over concatenation.
pub proof fn lemma_enc_str_body_app(a: Seq<char>, b: Seq<char>)
    ensures
        enc_str_body(a + b) == enc_str_body(a) + enc_str_body(b),
    decreases a.len(),
{
    if a.len() == 0 {
        assert(a + b =~= b);
        assert(enc_str_body(a) + enc_str_body(b) =~= enc_str_body(b));
    } else {
        assert((a + b)[0] == a[0]);
        assert((a + b).drop_first() =~= a.drop_first() + b);
        lemma_enc_str_body_app(a.drop_first(), b);
        assert(esc(a[0]) + (enc_str_body(a.drop_first()) + enc_str_body(b)) =~= (esc(a[0])
            + enc_str_body(a.drop_first())) + enc_str_body(b));
    }
}

/// One more character extends the escaped body by one escape.
pub proof fn lemma_enc_str_body_snoc(s: Seq<char>, i: int)
    requires
        0 <= i < s.len(),
    ensures
        enc_str_body(s.take(i + 1)) == enc_str_body(s.take(i)) + esc(s[i]),
{
    assert(s.take(i + 1) =~= s.take(i) + seq![s[i]]);
    lemma_enc_str_body_app(s.take(i), seq![s[i]]);
    assert(seq![s[i]].drop_first() =~= Seq::<char>::empty());
    assert(enc_str_body(seq![s[i]]) == esc(s[i]) + enc_str_body(Seq::<char>::empty()));
    assert(esc(s[i]) + Seq::<char>::empty() =~= esc(s[i]));
}

/// One more tag extends the array tail by one `,"x"` group.
pub proof fn lemma_enc_tags_rest_snoc(ts: Seq<Seq<char>>, x: Seq<char>)
    ensures
        enc_tags_rest(ts.push(x)) == enc_tags_rest(ts) + seq![','] + enc_string(x),
    decreases ts.len(),
{
    if ts.len() == 0 {
        assert(ts.push(x)[0] == x);
        assert(ts.push(x).drop_first() =~= Seq::<Seq<char>>::empty());
        assert(enc_tags_rest(ts.push(x)) == seq![','] + enc_string(x) + enc_tags_rest(
            Seq::<Seq<char>>::empty(),
        ));
        assert(seq![','] + enc_string(x) + Seq::<char>::empty() =~= Seq::<char>::empty()
            + seq![','] + enc_string(x));
    } else {
        assert(ts.push(x)[0] == ts[0]);
        assert(ts.push(x).drop_first() =~= ts.drop_first().push(x));
        lemma_enc_tags_rest_snoc(ts.drop_first(), x);
        assert(enc_tags_rest(ts.push(x)) == seq![','] + enc_string(ts[0]) + enc_tags_rest(
            ts.drop_first().push(x),
        ));
        assert(seq![','] + enc_string(ts[0]) + (enc_tags_rest(ts.drop_first()) + seq![',']
            + enc_string(x)) =~= (seq![','] + enc_string(ts[0]) + enc_tags_rest(ts.drop_first()))
            + seq![','] + enc_string(x));
    }
}

/// The hexadecimal digit character for a value below 16.
fn hex_digit_char(d: u8) -> (c: char)
    requires
        d < 16,
    ensures
        c == hex_digit(d as int),
{
    if d < 10 {
        (48 + d) as char
    } else {
        (87 + d) as char
    }
}

/// Appends the JSON escape of one character.
fn push_esc(out: &mut Vec<char>, c: char)
    ensures
        final(out)@ == old(out)@ + esc(c),
{
    if c == '"' {
        out.push('\\');
        out.push('"');
    } else if c == '\\' {
        out.push('\\');
        out.push('\\');
    } else if c == '\u{8}' {
        out.push('\\');
        out.push('b');
    } else if c == '\u{c}' {
        out.push('\\');
        out.push('f');
    } else if c == '\n' {
        out.push('\\');
        out.push('n');
    } else if c == '\r' {
        out.push('\\');
        out.push('r');
    } else if c == '\t' {
        out.push('\\');
        out.push('t');
    } else {
        let u = c as u32;
        if u < 0x20 {
            out.push('\\');
            out.push('u');
            out.push('0');
            out.push('0');
            out.push(hex_digit_char((u / 16) as u8));
            out.push(hex_digit_char((u % 16) as u8));
        } else {
            out.push(c);
        }
    }
    proof {
        assert(final(out)@ =~= old(out)@ + esc(c));
    }
}

/// Appends the JSON string literal for `s`.
pub fn push_enc_string(out: &mut Vec<char>, s: &str)
    ensures
        final(out)@ == old(out)@ + enc_string(s@),
{
    let cs = crate::chars::chars_of(s);
    out.push('"');
    let ghost base = out@;
    let mut i: usize = 0;
    while i < cs.len()
        invariant
            cs@ == s@,
            i <= cs@.len(),
            out@ == base + enc_str_body(s@.take(i as int)),
            base == old(out)@ + seq!['"'],
        decreases cs@.len() - i,
    {
        proof {
            assert(enc_str_body(s@.take(0)) == Seq::<char>::empty());
        }
        push_esc(out, cs[i]);
        proof {
            lemma_enc_str_body_snoc(s@, i as int);
            assert(base + enc_str_body(s@.take(i as int)) + esc(s@[i as int]) =~= base + (
            enc_str_body(s@.take(i as int)) + esc(s@[i as int])));
        }
        i = i + 1;
    }
    out.push('"');
    proof {
        assert(s@.take(s@.len() as int) =~= s@);
        assert(base + enc_str_body(s@) + seq!['"'] =~= old(out)@ + (seq!['"'] + enc_str_body(s@)
            + seq!['"']));
        assert(enc_str_body(s@.take(0)) == Seq::<char>::empty());
        assert(base + Seq::<char>::empty() =~= base);
    }
}

/// Appends the decimal digits of `n`.
pub fn push_uint(out: &mut Vec<char>, n: u64)
    ensures
        final(out)@ == old(out)@ + enc_uint(n as nat),
    decreases n,
{
    if n < 10 {
        out.push(hex_digit_char(n as u8));
        proof {
            assert(final(out)@ =~= old(out)@ + enc_uint(n as nat));
        }
    } else {
        push_uint(out, n / 10);
        out.push(hex_digit_char((n % 10) as u8));
        proof {
            assert((n / 10) as nat == (n as nat) / 10);
            assert((n % 10) as nat == (n as nat) % 10);
            assert(final(out)@ =~= old(out)@ + (enc_uint((n as nat) / 10) + seq![hex_digit(
                ((n as nat) % 10) as int,
            )]));
        }
    }
}

/// Appends the decimal form of a signed value.
pub fn push_int(out: &mut Vec<char>, v: i32)
    ensures
        final(out)@ == old(out)@ + enc_int(v as int),
{
    if v < 0 {
        out.push('-');
        let m = -(v as i64);
        push_uint(out, m as u64);
        proof {
            assert((m as u64) as nat == (-(v as int)) as nat);
            assert(final(out)@ =~= old(out)@ + (seq!['-'] + enc_uint((-(v as int)) as nat)));
        }
    } else {
        push_uint(out, v as u64);
    }
}

/// Appends the JSON string literal or `null` for an optional field.
fn push_opt_str(out: &mut Vec<char>, o: &Option<String>)
    ensures
        final(out)@ == old(out)@ + enc_opt_str(o.deep_view()),
{
    match o {
        Some(s) => {
            push_enc_string(out, s.as_str());
        },
        None => {
            crate::chars::push_chars_of(out, "null");
            proof {
                reveal_strlit("null");
                assert("null"@ =~= seq!['n', 'u', 'l', 'l']);
            }
        },
    }
}

/// Appends the JSON array of tag strings.
fn push_tags(out: &mut Vec<char>, tags: &Vec<String>)
    ensures
        final(out)@ == old(out)@ + enc_tags(tags.deep_view()),
{
    let ghost ts = tags.deep_view();
    out.push('[');
    if tags.len() == 0 {
        out.push(']');
        proof {
            assert(final(out)@ =~= old(out)@ + enc_tags(ts));
        }
        return ;
    }
    push_enc_string(out, tags[0].as_str());
    let ghost base = out@;
    proof {
        assert(ts[0] == tags@[0]@);
        assert(base == old(out)@ + seq!['['] + enc_string(ts[0]));
        assert(enc_tags_rest(ts.take(1).drop_first()) == Seq::<char>::empty());
    }
    let mut i: usize = 1;
    while i < tags.len()
        invariant
            ts == tags.deep_view(),
            1 <= i <= ts.len(),
            out@ == base + enc_tags_rest(ts.subrange(1, i as int)),
            base == old(out)@ + seq!['['] + enc_string(ts[0]),
        decreases ts.len() - i,
    {
        out.push(',');
        push_enc_string(out, tags[i].as_str());
        proof {
            assert(ts[i as int] == tags@[i as int]@);
            assert(ts.subrange(1, i + 1) =~= ts.subrange(1, i as int).push(ts[i as int]));
            lemma_enc_tags_rest_snoc(ts.subrange(1, i as int), ts[i as int]);
            assert(base + enc_tags_rest(ts.subrange(1, i as int)) + seq![','] + enc_string(
                ts[i as int],
            ) =~= base + (enc_tags_rest(ts.subrange(1, i as int)) + seq![','] + enc_string(
                ts[i as int],
            )));
        }
        i = i + 1;
    }
    out.push(']');
    proof {
        assert(ts.subrange(1, 1) =~= Seq::<Seq<char>>::empty());
        assert(enc_tags_rest(ts.subrange(1, 1)) == Seq::<char>::empty());
        assert(base + Seq::<char>::empty() =~= base);
        assert(ts.subrange(1, ts.len() as int) =~= ts.drop_first());
        assert(final(out)@ =~= old(out)@ + (seq!['['] + enc_string(ts[0]) + enc_tags_rest(
            ts.drop_first(),
        ) + seq![']']));
    }
}

/// Encodes one prompt as its canonical record line.
pub fn encode_prompt_line(p: &crate::prompt::Prompt) -> (out: Vec<char>)
    ensures
        out@ == enc_prompt(p@),
{
    let mut out: Vec<char> = Vec::new();
    crate::chars::push_chars_of(&mut out, "{\"id\":");
    push_enc_string(&mut out, p.id.as_str());
    crate::chars::push_chars_of(&mut out, ",\"title\":");
    push_enc_string(&mut out, p.title.as_str());
    crate::chars::push_chars_of(&mut out, ",\"content\":");
    push_enc_string(&mut out, p.content.as_str());
    crate::chars::push_chars_of(&mut out, ",\"description\":");
    push_opt_str(&mut out, &p.description);
    crate::chars::push_chars_of(&mut out, ",\"category\":");
    push_opt_str(&mut out, &p.category);
    crate::chars::push_chars_of(&mut out, ",\"tags\":");
    push_tags(&mut out, &p.tags);
    crate::chars::push_chars_of(&mut out, "}");
    proof {
        assert(out@ =~= enc_prompt(p@));
    }
    out
}


// ---------------------------------------------------------------------------
// Parsing: specification
// ---------------------------------------------------------------------------
/// Consumes an exact literal prefix, yielding the rest.
pub open spec fn p_lit(t: Seq<char>, l: Seq<char>) -> Option<Seq<char>> {
    if l.len() <= t.len() && t.take(l.len() as int) == l {
        Some(t.skip(l.len() as int))
    } else {
        None
    }
}

/// Value of a hexadecimal digit character, or `-1`.
pub open spec fn hex_val(c: char) -> int {
    if 48 <= (c as u32) && (c as u32) <= 57 {
        (c as u32) - 48
    } else if 97 <= (c as u32) && (c as u32) <= 102 {
        (c as u32) - 87
    } else if 65 <= (c as u32) && (c as u32) <= 70 {
        (c as u32) - 55
    } else {
        -1
    }
}

/// A decimal digit character.
pub open spec fn is_digit(c: char) -> bool {
    48 <= (c as u32) && (c as u32) <= 57
}

/// Value of a decimal digit character.
pub open spec fn dval(c: char) -> int {
    (c as u32) - 48
}

/// Consumes the body of a JSON string literal up to and including the
/// closing quote, yielding the decoded text and the rest. Raw control
/// characters are rejected; `\uXXXX` escapes are accepted for the first
/// 256 code points.
pub open spec fn p_str_body(t: Seq<char>) -> Option<(Seq<char>, Seq<char>)>
    decreases t.len(),
{
    if t.len() == 0 {
        None
    } else if t[0] == '"' {
        Some((Seq::empty(), t.drop_first()))
    } else if t[0] == '\\' {
        if t.len() < 2 {
            None
        } else {
            let e = t[1];
            if e == 'u' {
                if t.len() >= 6 && t[2] == '0' && t[3] == '0' && hex_val(t[4]) >= 0 && hex_val(
                    t[5],
                ) >= 0 {
                    let code = 16 * hex_val(t[4]) + hex_val(t[5]);
                    match p_str_body(t.skip(6)) {
                        Some((d, r)) => Some((seq![((code as u32) as char)] + d, r)),
                        None => None,
                    }
                } else {
                    None
                }
            } else if e == '"' || e == '\\' || e == '/' || e == 'b' || e == 'f' || e == 'n' || e
                == 'r' || e == 't' {
                let c = if e == '"' {
                    '"'
                } else if e == '\\' {
                    '\\'
                } else if e == '/' {
                    '/'
                } else if e == 'b' {
                    '\u{8}'
                } else if e == 'f' {
                    '\u{c}'
                } else if e == 'n' {
                    '\n'
                } else if e == 'r' {
                    '\r'
                } else {
                    '\t'
                };
                match p_str_body(t.skip(2)) {
                    Some((d, r)) => Some((seq![c] + d, r)),
                    None => None,
                }
            } else {
                None
            }
        }
    } else if (t[0] as u32) < 0x20 {
        None
    } else {
        match p_str_body(t.drop_first()) {
            Some((d, r)) => Some((seq![t[0]] + d, r)),
            None => None,
        }
    }
}

/// Consumes a complete JSON string literal.
pub open spec fn p_string(t: Seq<char>) -> Option<(Seq<char>, Seq<char>)> {
    if t.len() > 0 && t[0] == '"' {
        p_str_body(t.drop_first())
    } else {
        None
    }
}

/// Greedy digit run, accumulating left to right.
pub open spec fn p_uint_loop(t: Seq<char>, acc: nat) -> (nat, Seq<char>)
    decreases t.len(),
{
    if t.len() > 0 && is_digit(t[0]) {
        p_uint_loop(t.drop_first(), (acc * 10 + dval(t[0])) as nat)
    } else {
        (acc, t)
    }
}

/// Consumes a non-negative decimal number: at least one digit.
pub open spec fn p_uint(t: Seq<char>) -> Option<(nat, Seq<char>)> {
    if t.len() > 0 && is_digit(t[0]) {
        Some(p_uint_loop(t, 0))
    } else {
        None
    }
}

/// Consumes a decimal number with an optional leading minus sign.
pub open spec fn p_int(t: Seq<char>) -> Option<(int, Seq<char>)> {
    if t.len() > 0 && t[0] == '-' {
        match p_uint(t.drop_first()) {
            Some((n, r)) => Some((-(n as int), r)),
            None => None,
        }
    } else {
        match p_uint(t) {
            Some((n, r)) => Some((n as int, r)),
            None => None,
        }
    }
}

/// Consumes a JSON string literal or the literal `null`.
pub open spec fn p_opt_string(t: Seq<char>) -> Option<(Option<Seq<char>>, Seq<char>)> {
    match p_lit(t, "null"@) {
        Some(r) => Some((None, r)),
        None => match p_string(t) {
            Some((s, r)) => Some((Some(s), r)),
            None => None,
        },
    }
}

/// Consumes the tail of a string array after the first element: `,"x"`
/// groups up to and including the closing bracket.
pub open spec fn p_tags_rest(t: Seq<char>, acc: Seq<Seq<char>>) -> Option<
    (Seq<Seq<char>>, Seq<char>),
>
    decreases t.len(),
{
    if t.len() == 0 {
        None
    } else if t[0] == ']' {
        Some((acc, t.drop_first()))
    } else if t[0] == ',' {
        match p_string(t.drop_first()) {
            Some((s, r)) => if r.len() < t.len() {
                p_tags_rest(r, acc.push(s))
            } else {
                None
            },
            None => None,
        }
    } else {
        None
    }
}

/// Consumes a complete JSON array of string literals.
pub open spec fn p_tags(t: Seq<char>) -> Option<(Seq<Seq<char>>, Seq<char>)> {
    if t.len() >= 2 && t[0] == '[' && t[1] == ']' {
        Some((Seq::empty(), t.skip(2)))
    } else if t.len() > 0 && t[0] == '[' {
        match p_string(t.drop_first()) {
            Some((s, r)) => if r.len() < t.len() {
                p_tags_rest(r, seq![s])
            } else {
                None
            },
            None => None,
        }
    } else {
        None
    }
}

/// The front of a record line: the three required string members.
pub open spec fn p_front(t: Seq<char>) -> Option<((Seq<char>, Seq<char>, Seq<char>), Seq<char>)> {
    match p_lit(t, "{\"id\":"@) {
        None => None,
        Some(t1) => match p_string(t1) {
            None => None,
            Some((id, t2)) => match p_lit(t2, ",\"title\":"@) {
                None => None,
                Some(t3) => match p_string(t3) {
                    None => None,
                    Some((title, t4)) => match p_lit(t4, ",\"content\":"@) {
                        None => None,
                        Some(t5) => match p_string(t5) {
                            None => None,
                            Some((content, t6)) => Some(((id, title, content), t6)),
                        },
                    },
                },
            },
        },
    }
}

/// The back of a record line: the optional members, the tag array and the
/// closing brace, which must end the line.
pub open spec fn p_back(t: Seq<char>) -> Option<
    (Option<Seq<char>>, Option<Seq<char>>, Seq<Seq<char>>),
> {
    match p_lit(t, ",\"description\":"@) {
        None => None,
        Some(t7) => match p_opt_string(t7) {
            None => None,
            Some((description, t8)) => match p_lit(t8, ",\"category\":"@) {
                None => None,
                Some(t9) => match p_opt_string(t9) {
                    None => None,
                    Some((category, t10)) => match p_lit(t10, ",\"tags\":"@) {
                        None => None,
                        Some(t11) => match p_tags(t11) {
                            None => None,
                            Some((tags, t12)) => if t12 =~= "}"@ {
                                Some((description, category, tags))
                            } else {
                                None
                            },
                        },
                    },
                },
            },
        },
    }
}

/// Parses a whole trimmed line as a canonical record line.
pub open spec fn p_record(t: Seq<char>) -> Option<PromptV> {
    match p_front(t) {
        None => None,
        Some(((id, title, content), r)) => match p_back(r) {
            None => None,
            Some((description, category, tags)) => Some(
                PromptV { id, title, content, description, category, tags },
            ),
        },
    }
}

/// Parses a whole trimmed line as a canonical header line.
pub open spec fn p_meta(t: Seq<char>) -> Option<MetaV> {
    match p_lit(t, "{\"_meta\":{\"version\":"@) {
        None => None,
        Some(t1) => match p_string(t1) {
            None => None,
            Some((version, t2)) => match p_lit(t2, ",\"count\":"@) {
                None => None,
                Some(t3) => match p_uint(t3) {
                    None => None,
                    Some((count, t4)) => if count > usize::MAX as nat {
                        None
                    } else {
                        match p_lit(t4, ",\"exported_at\":"@) {
                            None => None,
                            Some(t5) => match p_string(t5) {
                                None => None,
                                Some((exported_at, t6)) => match p_lit(
                                    t6,
                                    ",\"schema_version\":"@,
                                ) {
                                    None => None,
                                    Some(t7) => match p_int(t7) {
                                        None => None,
                                        Some((schema_version, t8)) => if schema_version
                                            < i32::MIN as int || schema_version > i32::MAX as int {
                                            None
                                        } else if t8 =~= "}}"@ {
                                            Some(
                                                MetaV {
                                                    version,
                                                    count,
                                                    exported_at,
                                                    schema_version,
                                                },
                                            )
                                        } else {
                                            None
                                        },
                                    },
                                },
                            },
                        }
                    },
                },
            },
        },
    }
}

/// Structural header detection: the line opens with the `_meta` member.
pub open spec fn is_header_line(t: Seq<char>) -> bool {
    p_lit(t, "{\"_meta\":"@) is Some
}

// ---------------------------------------------------------------------------
// Round trip: the parsers invert the encoders
// ---------------------------------------------------------------------------
/// A literal prefix parses as itself.
pub proof fn lemma_p_lit_enc(l: Seq<char>, rest: Seq<char>)
    ensures
        p_lit(l + rest, l) == Some(rest),
{
    let t = l + rest;
    assert(t.take(l.len() as int) =~= l);
    assert(t.skip(l.len() as int) =~= rest);
}

/// The hexadecimal digit characters decode to their values.
proof fn lemma_hex_digit_val(n: int)
    requires
        0 <= n < 16,
    ensures
        hex_val(hex_digit(n)) == n,
        n < 10 ==> is_digit(hex_digit(n)) && dval(hex_digit(n)) == n,
        hex_digit(n) != '\n',
{
    if n < 10 {
        assert(hex_digit(n) as u32 == 48 + n);
    } else {
        assert(hex_digit(n) as u32 == 87 + n);
    }
}

/// Decoding inverts escaping, one string body at a time.
pub proof fn lemma_p_str_body_enc(s: Seq<char>, rest: Seq<char>)
    ensures
        p_str_body(enc_str_body(s) + seq!['"'] + rest) == Some((s, rest)),
    decreases s.len(),
{
    let t = enc_str_body(s) + seq!['"'] + rest;
    if s.len() == 0 {
        assert(enc_str_body(s) == Seq::<char>::empty());
        assert(t =~= seq!['"'] + rest);
        assert(t[0] == '"');
        assert(t.drop_first() =~= rest);
    } else {
        let c = s[0];
        let e = esc(c);
        let s1 = s.drop_first();
        let t1 = enc_str_body(s1) + seq!['"'] + rest;
        assert(enc_str_body(s) == e + enc_str_body(s1));
        assert(t =~= e + t1);
        assert(t1.len() >= 1);
        lemma_p_str_body_enc(s1, rest);
        assert(seq![c] + s1 =~= s);
        if c == '"' || c == '\\' || c == '\u{8}' || c == '\u{c}' || c == '\n' || c == '\r' || c
            == '\t' {
            assert(e.len() == 2);
            assert(t[0] == e[0]);
            assert(t[1] == e[1]);
            assert(t[0] == '\\');
            assert(t.skip(2) =~= t1);
            assert(p_str_body(t) == Some((seq![c] + s1, rest)));
        } else if (c as u32) < 0x20 {
            let u = (c as u32) as int;
            assert(e == seq!['\\', 'u', '0', '0', hex_digit(u / 16), hex_digit(u % 16)]);
            assert(t.len() >= 6);
            assert(t[0] == '\\');
            assert(t[1] == 'u');
            assert(t[2] == '0');
            assert(t[3] == '0');
            assert(t[4] == hex_digit(u / 16));
            assert(t[5] == hex_digit(u % 16));
            lemma_hex_digit_val(u / 16);
            lemma_hex_digit_val(u % 16);
            assert(16 * hex_val(t[4]) + hex_val(t[5]) == u);
            vstd::utf8::char_u32_cast(c, c as u32);
            assert(((u as u32) as char) == c);
            assert(t.skip(6) =~= t1);
            assert(p_str_body(t) == Some((seq![c] + s1, rest)));
        } else {
            assert(e == seq![c]);
            assert(t[0] == c);
            assert(c != '"' && c != '\\');
            assert(!((c as u32) < 0x20));
            assert(t.drop_first() =~= t1);
            assert(p_str_body(t) == Some((seq![c] + s1, rest)));
        }
    }
}

/// A complete encoded string literal parses back to its text.
pub proof fn lemma_p_string_enc(s: Seq<char>, rest: Seq<char>)
    ensures
        p_string(enc_string(s) + rest) == Some((s, rest)),
{
    let t = enc_string(s) + rest;
    assert(t[0] == '"');
    assert(t.drop_first() =~= enc_str_body(s) + seq!['"'] + rest);
    lemma_p_str_body_enc(s, rest);
}

/// Powers of ten.
pub open spec fn pow10(k: nat) -> nat
    decreases k,
{
    if k == 0 {
        1nat
    } else {
        10 * pow10((k - 1) as nat)
    }
}

/// Every character of an encoded number is a digit.
proof fn lemma_enc_uint_digits(n: nat)
    ensures
        enc_uint(n).len() >= 1,
        forall|i: int| 0 <= i < enc_uint(n).len() ==> is_digit(#[trigger] enc_uint(n)[i]),
    decreases n,
{
    lemma_hex_digit_val((n % 10) as int);
    if n < 10 {
        lemma_hex_digit_val(n as int);
    } else {
        lemma_enc_uint_digits(n / 10);
        assert forall|i: int| 0 <= i < enc_uint(n).len() implies is_digit(
            #[trigger] enc_uint(n)[i],
        ) by {
            if i < enc_uint(n / 10).len() {
                assert(enc_uint(n)[i] == enc_uint(n / 10)[i]);
            } else {
                assert(enc_uint(n)[i] == hex_digit((n % 10) as int));
            }
        }
    }
}

/// The digit accumulator run over an encoded number.
proof fn lemma_p_uint_loop_enc(n: nat, rest: Seq<char>, acc: nat)
    ensures
        p_uint_loop(enc_uint(n) + rest, acc) == p_uint_loop(
            rest,
            (acc * pow10(enc_uint(n).len() as nat) + n) as nat,
        ),
    decreases n,
{
    if n < 10 {
        let d = hex_digit(n as int);
        lemma_hex_digit_val(n as int);
        let t = enc_uint(n) + rest;
        assert(enc_uint(n) == seq![d]);
        assert(t[0] == d);
        assert(t.drop_first() =~= rest);
        assert(p_uint_loop(t, acc) == p_uint_loop(rest, (acc * 10 + n) as nat));
        assert(enc_uint(n).len() == 1);
        assert(pow10(1) == 10 * pow10(0));
        assert(acc * pow10(1) == acc * 10) by (nonlinear_arith)
            requires
                pow10(1nat) == 10,
        ;
    } else {
        let q = n / 10;
        let r = n % 10;
        assert(n == 10 * q + r);
        let d = hex_digit(r as int);
        lemma_hex_digit_val(r as int);
        let l1 = enc_uint(q);
        assert(enc_uint(n) == l1 + seq![d]);
        assert(enc_uint(n) + rest =~= l1 + (seq![d] + rest));
        lemma_p_uint_loop_enc(q, seq![d] + rest, acc);
        let a2 = (acc * pow10(l1.len() as nat) + q) as nat;
        assert((seq![d] + rest)[0] == d);
        assert((seq![d] + rest).drop_first() =~= rest);
        assert(p_uint_loop(seq![d] + rest, a2) == p_uint_loop(rest, (a2 * 10 + r) as nat));
        assert(enc_uint(n).len() == l1.len() + 1);
        assert(pow10((l1.len() + 1) as nat) == 10 * pow10(l1.len() as nat));
        assert(a2 * 10 + r == acc * (10 * pow10(l1.len() as nat)) + n) by (nonlinear_arith)
            requires
                a2 == acc * pow10(l1.len() as nat) + q,
                n == 10 * q + r,
        ;
    }
}

/// An encoded number parses back to its value.
pub proof fn lemma_p_uint_enc(n: nat, rest: Seq<char>)
    requires
        rest.len() == 0 || !is_digit(rest[0]),
    ensures
        p_uint(enc_uint(n) + rest) == Some((n, rest)),
{
    lemma_enc_uint_digits(n);
    let t = enc_uint(n) + rest;
    assert(t[0] == enc_uint(n)[0]);
    lemma_p_uint_loop_enc(n, rest, 0);
    assert(0 * pow10(enc_uint(n).len() as nat) == 0) by (nonlinear_arith);
    assert(p_uint_loop(rest, n) == (n, rest));
}

/// An encoded signed number parses back to its value.
pub proof fn lemma_p_int_enc(v: int, rest: Seq<char>)
    requires
        rest.len() == 0 || !is_digit(rest[0]),
    ensures
        p_int(enc_int(v) + rest) == Some((v, rest)),
{
    let t = enc_int(v) + rest;
    if v < 0 {
        assert(t[0] == '-');
        assert(t.drop_first() =~= enc_uint((-v) as nat) + rest);
        lemma_p_uint_enc((-v) as nat, rest);
    } else {
        lemma_enc_uint_digits(v as nat);
        assert(t[0] == enc_uint(v as nat)[0]);
        assert(is_digit(t[0]));
        assert(t[0] as u32 >= 48);
        assert(t[0] != '-');
        lemma_p_uint_enc(v as nat, rest);
    }
}

/// An encoded optional string parses back to its value.
pub proof fn lemma_p_opt_str_enc(o: Option<Seq<char>>, rest: Seq<char>)
    ensures
        p_opt_string(enc_opt_str(o) + rest) == Some((o, rest)),
{
    reveal_strlit("null");
    match o {
        None => {
            assert(enc_opt_str(o) =~= "null"@);
            lemma_p_lit_enc("null"@, rest);
            assert(enc_opt_str(o) + rest =~= "null"@ + rest);
        },
        Some(s) => {
            let t = enc_opt_str(o) + rest;
            assert(t[0] == '"');
            assert("null"@[0] == 'n');
            if p_lit(t, "null"@) is Some {
                assert(t.take("null"@.len() as int) == "null"@);
                assert(t.take(4)[0] == t[0]);
                assert(false);
            }
            assert(t =~= enc_string(s) + rest);
            lemma_p_string_enc(s, rest);
        },
    }
}

/// An encoded string literal is at least two characters.
proof fn lemma_enc_string_len(s: Seq<char>)
    ensures
        enc_string(s).len() >= 2,
{
}

/// The encoded tail of a tag array parses back, extending the accumulator.
proof fn lemma_p_tags_rest_enc(tsr: Seq<Seq<char>>, acc: Seq<Seq<char>>, rest: Seq<char>)
    ensures
        p_tags_rest(enc_tags_rest(tsr) + seq![']'] + rest, acc) == Some((acc + tsr, rest)),
    decreases tsr.len(),
{
    let t = enc_tags_rest(tsr) + seq![']'] + rest;
    if tsr.len() == 0 {
        assert(enc_tags_rest(tsr) == Seq::<char>::empty());
        assert(t =~= seq![']'] + rest);
        assert(t[0] == ']');
        assert(t.drop_first() =~= rest);
        assert(acc + tsr =~= acc);
    } else {
        let r1 = enc_tags_rest(tsr.drop_first()) + seq![']'] + rest;
        assert(enc_tags_rest(tsr) == seq![','] + enc_string(tsr[0]) + enc_tags_rest(
            tsr.drop_first(),
        ));
        assert(t =~= seq![','] + (enc_string(tsr[0]) + r1));
        assert(t[0] == ',');
        assert(t.drop_first() =~= enc_string(tsr[0]) + r1);
        lemma_p_string_enc(tsr[0], r1);
        lemma_enc_string_len(tsr[0]);
        assert(r1.len() < t.len());
        lemma_p_tags_rest_enc(tsr.drop_first(), acc.push(tsr[0]), rest);
        assert(acc.push(tsr[0]) + tsr.drop_first() =~= acc + tsr);
    }
}

/// An encoded tag array parses back to its tags.
pub proof fn lemma_p_tags_enc(ts: Seq<Seq<char>>, rest: Seq<char>)
    ensures
        p_tags(enc_tags(ts) + rest) == Some((ts, rest)),
{
    let t = enc_tags(ts) + rest;
    if ts.len() == 0 {
        assert(t[0] == '[');
        assert(t[1] == ']');
        assert(t.skip(2) =~= rest);
    } else {
        let r1 = enc_tags_rest(ts.drop_first()) + seq![']'] + rest;
        assert(t =~= seq!['['] + (enc_string(ts[0]) + r1));
        assert(t[0] == '[');
        assert(enc_string(ts[0])[0] == '"');
        assert(t[1] == '"');
        assert(t.drop_first() =~= enc_string(ts[0]) + r1);
        lemma_p_string_enc(ts[0], r1);
        lemma_enc_string_len(ts[0]);
        assert(r1.len() < t.len());
        lemma_p_tags_rest_enc(ts.drop_first(), seq![ts[0]], rest);
        assert(seq![ts[0]] + ts.drop_first() =~= ts);
    }
}

/// The encoded front of a record line parses back to its three fields.
proof fn lemma_p_front_enc(id: Seq<char>, title: Seq<char>, content: Seq<char>, rest: Seq<char>)
    ensures
        p_front(
            "{\"id\":"@ + enc_string(id) + ",\"title\":"@ + enc_string(title) + ",\"content\":"@
                + enc_string(content) + rest,
        ) == Some(((id, title, content), rest)),
{
    let t = "{\"id\":"@ + enc_string(id) + ",\"title\":"@ + enc_string(title) + ",\"content\":"@
        + enc_string(content) + rest;
    let r5 = enc_string(content) + rest;
    let r4 = ",\"content\":"@ + r5;
    let r3 = enc_string(title) + r4;
    let r2 = ",\"title\":"@ + r3;
    let r1 = enc_string(id) + r2;
    assert(t =~= "{\"id\":"@ + r1);
    lemma_p_lit_enc("{\"id\":"@, r1);
    lemma_p_string_enc(id, r2);
    lemma_p_lit_enc(",\"title\":"@, r3);
    lemma_p_string_enc(title, r4);
    lemma_p_lit_enc(",\"content\":"@, r5);
    lemma_p_string_enc(content, rest);
}

/// The encoded back of a record line parses back to its three fields.
proof fn lemma_p_back_enc(
    description: Option<Seq<char>>,
    category: Option<Seq<char>>,
    tags: Seq<Seq<char>>,
)
    ensures
        p_back(
            ",\"description\":"@ + enc_opt_str(description) + ",\"category\":"@ + enc_opt_str(
                category,
            ) + ",\"tags\":"@ + enc_tags(tags) + "}"@,
        ) == Some((description, category, tags)),
{
    let t = ",\"description\":"@ + enc_opt_str(description) + ",\"category\":"@ + enc_opt_str(
        category,
    ) + ",\"tags\":"@ + enc_tags(tags) + "}"@;
    let r12 = "}"@;
    let r11 = enc_tags(tags) + r12;
    let r10 = ",\"tags\":"@ + r11;
    let r9 = enc_opt_str(category) + r10;
    let r8 = ",\"category\":"@ + r9;
    let r7 = enc_opt_str(description) + r8;
    assert(t =~= ",\"description\":"@ + r7);
    lemma_p_lit_enc(",\"description\":"@, r7);
    lemma_p_opt_str_enc(description, r8);
    lemma_p_lit_enc(",\"category\":"@, r9);
    lemma_p_opt_str_enc(category, r10);
    lemma_p_lit_enc(",\"tags\":"@, r11);
    lemma_p_tags_enc(tags, r12);
}

/// The canonical record line of a prompt parses back to that prompt.
pub proof fn lemma_p_record_enc(p: PromptV)
    ensures
        p_record(enc_prompt(p)) == Some(p),
{
    let back = ",\"description\":"@ + enc_opt_str(p.description) + ",\"category\":"@ + enc_opt_str(
        p.category,
    ) + ",\"tags\":"@ + enc_tags(p.tags) + "}"@;
    assert(enc_prompt(p) =~= "{\"id\":"@ + enc_string(p.id) + ",\"title\":"@ + enc_string(p.title)
        + ",\"content\":"@ + enc_string(p.content) + back);
    lemma_p_front_enc(p.id, p.title, p.content, back);
    lemma_p_back_enc(p.description, p.category, p.tags);
    assert(PromptV {
        id: p.id,
        title: p.title,
        content: p.content,
        description: p.description,
        category: p.category,
        tags: p.tags,
    } =~= p);
}

/// The canonical header line of a snapshot parses back to that header,
/// provided its numbers lie in the machine ranges the format admits.
pub proof fn lemma_p_meta_enc(m: MetaV)
    requires
        m.count <= usize::MAX as nat,
        i32::MIN as int <= m.schema_version <= i32::MAX as int,
    ensures
        p_meta(enc_meta(m)) == Some(m),
{
    let t = enc_meta(m);
    let r8 = "}}"@;
    let r7 = enc_int(m.schema_version) + r8;
    let r6 = ",\"schema_version\":"@ + r7;
    let r5 = enc_string(m.exported_at) + r6;
    let r4 = ",\"exported_at\":"@ + r5;
    let r3 = enc_uint(m.count) + r4;
    let r2 = ",\"count\":"@ + r3;
    let r1 = enc_string(m.version) + r2;
    assert(t =~= "{\"_meta\":{\"version\":"@ + r1);
    lemma_p_lit_enc("{\"_meta\":{\"version\":"@, r1);
    lemma_p_string_enc(m.version, r2);
    assert(r2 =~= ",\"count\":"@ + r3);
    lemma_p_lit_enc(",\"count\":"@, r3);
    reveal_strlit(",\"exported_at\":");
    assert(r4[0] == ',');
    assert(!is_digit(','));
    lemma_p_uint_enc(m.count, r4);
    lemma_p_lit_enc(",\"exported_at\":"@, r5);
    lemma_p_string_enc(m.exported_at, r6);
    assert(r6 =~= ",\"schema_version\":"@ + r7);
    lemma_p_lit_enc(",\"schema_version\":"@, r7);
    reveal_strlit("}}");
    assert(r8[0] == '}');
    assert(!is_digit('}'));
    lemma_p_int_enc(m.schema_version, r8);
    assert(p_meta(t) == Some(
        MetaV {
            version: m.version,
            count: m.count,
            exported_at: m.exported_at,
            schema_version: m.schema_version,
        },
    ));
    assert(MetaV {
        version: m.version,
        count: m.count,
        exported_at: m.exported_at,
        schema_version: m.schema_version,
    } =~= m);
}

/// An encoded header line is recognized as a header.
pub proof fn lemma_enc_meta_is_header(m: MetaV)
    ensures
        is_header_line(enc_meta(m)),
{
    reveal_strlit("{\"_meta\":");
    reveal_strlit("{\"_meta\":{\"version\":");
    let h = "{\"_meta\":"@;
    let l = "{\"_meta\":{\"version\":"@;
    let t = enc_meta(m);
    let r1 = enc_string(m.version) + (",\"count\":"@ + (enc_uint(m.count) + (",\"exported_at\":"@
        + (enc_string(m.exported_at) + (",\"schema_version\":"@ + (enc_int(m.schema_version)
        + "}}"@))))));
    assert(t =~= l + r1);
    assert(h.len() == 9);
    assert(t.len() >= 9);
    assert forall|i: int| 0 <= i < 9 implies t.take(9)[i] == h[i] by {
        assert(t[i] == l[i]);
    }
    assert(t.take(9) =~= h);
}

/// A record line is never taken for a header, whatever the prompt holds.
#[verifier::rlimit(100)]
#[verifier::spinoff_prover]
pub proof fn lemma_enc_prompt_not_header(p: PromptV)
    ensures
        !is_header_line(enc_prompt(p)),
{
    reveal_strlit("{\"_meta\":");
    reveal_strlit("{\"id\":");
    let h = "{\"_meta\":"@;
    let t = enc_prompt(p);
    let r1 = enc_string(p.id) + (",\"title\":"@ + (enc_string(p.title) + (",\"content\":"@ + (
    enc_string(p.content) + (",\"description\":"@ + (enc_opt_str(p.description) + (
    ",\"category\":"@ + (enc_opt_str(p.category) + (",\"tags\":"@ + (enc_tags(p.tags)
        + "}"@))))))))));
    assert(t =~= "{\"id\":"@ + r1);
    if is_header_line(t) {
        assert(t.take(h.len() as int) == h);
        assert(t.take(9)[2] == t[2]);
        assert(h[2] == '_');
        assert(t[2] == "{\"id\":"@[2]);
        assert("{\"id\":"@[2] == 'i');
        assert(false);
    }
}

// ---------------------------------------------------------------------------
// Parsing: executable
// ---------------------------------------------------------------------------
/// The value of a hexadecimal digit character, if it is one.
fn hexv(c: char) -> (r: Option<u8>)
    ensures
        match r {
            Some(v) => hex_val(c) == v as int && v < 16,
            None => hex_val(c) < 0,
        },
{
    let u = c as u32;
    if 48 <= u && u <= 57 {
        Some((u - 48) as u8)
    } else if 97 <= u && u <= 102 {
        Some((u - 87) as u8)
    } else if 65 <= u && u <= 70 {
        Some((u - 55) as u8)
    } else {
        None
    }
}

/// Consumes an exact literal at position `i`.
pub(crate) fn expect_lit(t: &Vec<char>, i: usize, l: &str) -> (r: Option<usize>)
    requires
        i <= t@.len(),
    ensures
        match r {
            Some(j) => i <= j <= t@.len() && p_lit(t@.skip(i as int), l@) == Some(
                t@.skip(j as int),
            ),
            None => p_lit(t@.skip(i as int), l@) is None,
        },
{
    let tlen = t.len();
    let lc = crate::chars::chars_of(l);
    let n = lc.len();
    proof {
        assert(t@.skip(i as int).len() == t@.len() - i);
    }
    if n > tlen - i {
        return None;
    }
    let mut k: usize = 0;
    while k < n
        invariant
            lc@ == l@,
            n == l@.len(),
            tlen == t@.len(),
            i + n <= tlen,
            k <= n,
            forall|j: int| 0 <= j < k ==> t@[i + j] == #[trigger] l@[j],
        decreases n - k,
    {
        if t[i + k] != lc[k] {
            proof {
                let tt = t@.skip(i as int);
                assert(tt.take(n as int)[k as int] == t@[i + k]);
                assert(tt.take(n as int) != l@);
            }
            return None;
        }
        k = k + 1;
    }
    proof {
        let tt = t@.skip(i as int);
        assert(tt.take(n as int) =~= l@);
        assert(tt.skip(n as int) =~= t@.skip(i + n));
    }
    Some(i + n)
}

/// Consumes a JSON string literal at position `i`, decoding its escapes.
pub(crate) fn parse_string_at(t: &Vec<char>, i: usize) -> (r: Option<(String, usize)>)
    requires
        i <= t@.len(),
    ensures
        match r {
            Some((s, j)) => i <= j <= t@.len() && p_string(t@.skip(i as int)) == Some(
                (s@, t@.skip(j as int)),
            ),
            None => p_string(t@.skip(i as int)) is None,
        },
{
    let tlen = t.len();
    proof {
        assert(t@.skip(i as int).len() == t@.len() - i);
        if i < t@.len() {
            assert(t@.skip(i as int)[0] == t@[i as int]);
        }
    }
    if i == tlen {
        return None;
    }
    if t[i] != '"' {
        return None;
    }
    proof {
        assert(t@.skip(i as int).drop_first() =~= t@.skip(i + 1));
    }
    let mut out: Vec<char> = Vec::new();
    let mut k: usize = i + 1;
    loop
        invariant
            tlen == t@.len(),
            i + 1 <= k <= tlen,
            p_string(t@.skip(i as int)) == p_str_body(t@.skip(i + 1)),
            (match p_str_body(t@.skip(k as int)) {
                Some((d, r2)) => p_str_body(t@.skip(i + 1)) == Some((out@ + d, r2)),
                None => p_str_body(t@.skip(i + 1)) is None,
            }),
        decreases tlen - k,
    {
        let ghost tk = t@.skip(k as int);
        proof {
            assert(tk.len() == t@.len() - k);
            if k < t@.len() {
                assert(tk[0] == t@[k as int]);
                assert(tk.drop_first() =~= t@.skip(k + 1));
            }
        }
        if k == tlen {
            proof {
                assert(p_str_body(tk) is None);
            }
            return None;
        }
        let c = t[k];
        if c == '"' {
            let s = crate::chars::string_of(&out);
            proof {
                assert(p_str_body(tk) == Some((Seq::<char>::empty(), t@.skip(k + 1))));
                assert(out@ + Seq::<char>::empty() =~= out@);
            }
            return Some((s, k + 1));
        }
        if c == '\\' {
            if k + 1 == tlen {
                proof {
                    assert(tk.len() == 1);
                    assert(p_str_body(tk) is None);
                }
                return None;
            }
            let e = t[k + 1];
            proof {
                assert(tk[1] == t@[k + 1]);
            }
            if e == 'u' {
                if tlen - k < 6 {
                    proof {
                        assert(p_str_body(tk) is None);
                    }
                    return None;
                }
                proof {
                    assert(tk[2] == t@[k + 2]);
                    assert(tk[3] == t@[k + 3]);
                    assert(tk[4] == t@[k + 4]);
                    assert(tk[5] == t@[k + 5]);
                }
                if t[k + 2] != '0' || t[k + 3] != '0' {
                    proof {
                        assert(p_str_body(tk) is None);
                    }
                    return None;
                }
                let h1 = match hexv(t[k + 4]) {
                    Some(v) => v,
                    None => {
                        proof {
                            assert(p_str_body(tk) is None);
                        }
                        return None;
                    },
                };
                let h2 = match hexv(t[k + 5]) {
                    Some(v) => v,
                    None => {
                        proof {
                            assert(p_str_body(tk) is None);
                        }
                        return None;
                    },
                };
                let code: u8 = 16 * h1 + h2;
                let cc = code as char;
                proof {
                    let spec_code = 16 * hex_val(tk[4]) + hex_val(tk[5]);
                    assert(spec_code == code as int);
                    assert(cc as u32 == code as u32);
                    vstd::utf8::char_u32_cast(cc, cc as u32);
                    assert(((spec_code as u32) as char) == cc);
                    assert(tk.skip(6) =~= t@.skip(k + 6));
                }
                let ghost out0 = out@;
                out.push(cc);
                proof {
                    match p_str_body(t@.skip(k + 6)) {
                        Some((d, r2)) => {
                            assert(p_str_body(tk) == Some((seq![cc] + d, r2)));
                            assert(out0 + (seq![cc] + d) =~= out@ + d);
                        },
                        None => {
                            assert(p_str_body(tk) is None);
                        },
                    }
                }
                k = k + 6;
            } else {
                let c2: char = if e == '"' {
                    '"'
                } else if e == '\\' {
                    '\\'
                } else if e == '/' {
                    '/'
                } else if e == 'b' {
                    '\u{8}'
                } else if e == 'f' {
                    '\u{c}'
                } else if e == 'n' {
                    '\n'
                } else if e == 'r' {
                    '\r'
                } else if e == 't' {
                    '\t'
                } else {
                    proof {
                        assert(p_str_body(tk) is None);
                    }
                    return None;
                };
                proof {
                    assert(tk.skip(2) =~= t@.skip(k + 2));
                }
                let ghost out0 = out@;
                out.push(c2);
                proof {
                    match p_str_body(t@.skip(k + 2)) {
                        Some((d, r2)) => {
                            assert(p_str_body(tk) == Some((seq![c2] + d, r2)));
                            assert(out0 + (seq![c2] + d) =~= out@ + d);
                        },
                        None => {
                            assert(p_str_body(tk) is None);
                        },
                    }
                }
                k = k + 2;
            }
        } else {
            if (c as u32) < 0x20 {
                proof {
                    assert(p_str_body(tk) is None);
                }
                return None;
            }
            let ghost out0 = out@;
            out.push(c);
            proof {
                match p_str_body(t@.skip(k + 1)) {
                    Some((d, r2)) => {
                        assert(p_str_body(tk) == Some((seq![c] + d, r2)));
                        assert(out0 + (seq![c] + d) =~= out@ + d);
                    },
                    None => {
                        assert(p_str_body(tk) is None);
                    },
                }
            }
            k = k + 1;
        }
    }
}

/// The accumulator of a digit run never shrinks.
proof fn lemma_p_uint_loop_ge(t: Seq<char>, acc: nat)
    ensures
        p_uint_loop(t, acc).0 >= acc,
    decreases t.len(),
{
    if t.len() > 0 && is_digit(t[0]) {
        lemma_p_uint_loop_ge(t.drop_first(), (acc * 10 + dval(t[0])) as nat);
    }
}

/// Consumes a decimal number at position `i`, or reports overflow.
pub(crate) fn parse_uint_at(t: &Vec<char>, i: usize) -> (r: Option<(u64, usize)>)
    requires
        i <= t@.len(),
    ensures
        match r {
            Some((n, j)) => i <= j <= t@.len() && p_uint(t@.skip(i as int)) == Some(
                (n as nat, t@.skip(j as int)),
            ),
            None => match p_uint(t@.skip(i as int)) {
                Some((n, r2)) => n > u64::MAX as nat,
                None => true,
            },
        },
{
    let tlen = t.len();
    proof {
        assert(t@.skip(i as int).len() == t@.len() - i);
        if i < t@.len() {
            assert(t@.skip(i as int)[0] == t@[i as int]);
        }
    }
    if i == tlen {
        return None;
    }
    let c0 = t[i];
    if (c0 as u32) < 48 || (c0 as u32) > 57 {
        return None;
    }
    proof {
        assert(is_digit(t@[i as int]));
        assert(p_uint(t@.skip(i as int)) == Some(p_uint_loop(t@.skip(i as int), 0)));
    }
    let mut acc: u64 = 0;
    let mut k: usize = i;
    loop
        invariant
            tlen == t@.len(),
            i <= k <= tlen,
            p_uint(t@.skip(i as int)) == Some(p_uint_loop(t@.skip(k as int), acc as nat)),
        decreases tlen - k,
    {
        let ghost tk = t@.skip(k as int);
        proof {
            assert(tk.len() == t@.len() - k);
            if k < t@.len() {
                assert(tk[0] == t@[k as int]);
                assert(tk.drop_first() =~= t@.skip(k + 1));
            }
        }
        if k == tlen {
            proof {
                assert(p_uint_loop(tk, acc as nat) == (acc as nat, tk));
            }
            return Some((acc, k));
        }
        let c = t[k];
        if (c as u32) < 48 || (c as u32) > 57 {
            proof {
                assert(!is_digit(tk[0]));
                assert(p_uint_loop(tk, acc as nat) == (acc as nat, tk));
            }
            return Some((acc, k));
        }
        let d: u64 = ((c as u32) - 48) as u64;
        if acc > (u64::MAX - d) / 10 {
            proof {
                assert(acc * 10 + d > u64::MAX);
                assert(p_uint_loop(tk, acc as nat) == p_uint_loop(
                    t@.skip(k + 1),
                    (acc as nat * 10 + dval(tk[0])) as nat,
                ));
                lemma_p_uint_loop_ge(t@.skip(k + 1), (acc as nat * 10 + dval(tk[0])) as nat);
            }
            return None;
        }
        acc = acc * 10 + d;
        k = k + 1;
    }
}

/// Consumes a signed decimal at position `i`, within the `i32` range.
pub(crate) fn parse_int_at(t: &Vec<char>, i: usize) -> (r: Option<(i32, usize)>)
    requires
        i <= t@.len(),
    ensures
        match r {
            Some((v, j)) => i <= j <= t@.len() && p_int(t@.skip(i as int)) == Some(
                (v as int, t@.skip(j as int)),
            ),
            None => match p_int(t@.skip(i as int)) {
                Some((v, r2)) => v < i32::MIN as int || v > i32::MAX as int,
                None => true,
            },
        },
{
    let tlen = t.len();
    proof {
        assert(t@.skip(i as int).len() == t@.len() - i);
        if i < t@.len() {
            assert(t@.skip(i as int)[0] == t@[i as int]);
        }
    }
    if i < tlen && t[i] == '-' {
        proof {
            assert(t@.skip(i as int).drop_first() =~= t@.skip(i + 1));
        }
        match parse_uint_at(t, i + 1) {
            Some((n, j)) => {
                if n > 2147483648u64 {
                    return None;
                }
                let v: i32 = (-(n as i64)) as i32;
                proof {
                    assert(v as int == -(n as int));
                }
                Some((v, j))
            },
            None => {
                proof {
                    match p_uint(t@.skip(i + 1)) {
                        Some((n, r2)) => {
                            assert(-(n as int) < i32::MIN as int);
                        },
                        None => {},
                    }
                }
                None
            },
        }
    } else {
        match parse_uint_at(t, i) {
            Some((n, j)) => {
                if n > 2147483647u64 {
                    return None;
                }
                Some((n as i32, j))
            },
            None => {
                None
            },
        }
    }
}

/// Consumes a JSON string literal or `null` at position `i`.
pub(crate) fn parse_opt_str_at(t: &Vec<char>, i: usize) -> (r: Option<(Option<String>, usize)>)
    requires
        i <= t@.len(),
    ensures
        match r {
            Some((o, j)) => i <= j <= t@.len() && p_opt_string(t@.skip(i as int)) == Some(
                (o.deep_view(), t@.skip(j as int)),
            ),
            None => p_opt_string(t@.skip(i as int)) is None,
        },
{
    match expect_lit(t, i, "null") {
        Some(j) => Some((None, j)),
        None => match parse_string_at(t, i) {
            Some((s, j)) => Some((Some(s), j)),
            None => None,
        },
    }
}

/// Consumes a JSON array of string literals at position `i`.
pub(crate) fn parse_tags_at(t: &Vec<char>, i: usize) -> (r: Option<(Vec<String>, usize)>)
    requires
        i <= t@.len(),
    ensures
        match r {
            Some((ts, j)) => i <= j <= t@.len() && p_tags(t@.skip(i as int)) == Some(
                (ts.deep_view(), t@.skip(j as int)),
            ),
            None => p_tags(t@.skip(i as int)) is None,
        },
{
    let tlen = t.len();
    let ghost ti = t@.skip(i as int);
    proof {
        assert(ti.len() == t@.len() - i);
        if i < t@.len() {
            assert(ti[0] == t@[i as int]);
            assert(ti.drop_first() =~= t@.skip(i + 1));
        }
        if i + 1 < t@.len() {
            assert(ti[1] == t@[i + 1]);
        }
    }
    if i == tlen || t[i] != '[' {
        return None;
    }
    if i + 1 < tlen && t[i + 1] == ']' {
        let ts: Vec<String> = Vec::new();
        proof {
            assert(ti.skip(2) =~= t@.skip(i + 2));
            assert(ts.deep_view() =~= Seq::<Seq<char>>::empty());
        }
        return Some((ts, i + 2));
    }
    let (s0, j0) = match parse_string_at(t, i + 1) {
        Some(x) => x,
        None => {
            return None;
        },
    };
    let mut ts: Vec<String> = Vec::new();
    ts.push(s0);
    proof {
        assert(ts.deep_view() =~= seq![s0@]);
        assert(t@.skip(j0 as int).len() < ti.len());
        assert(p_tags(ti) == p_tags_rest(t@.skip(j0 as int), ts.deep_view()));
    }
    let mut k: usize = j0;
    loop
        invariant
            tlen == t@.len(),
            i <= k <= tlen,
            p_tags(t@.skip(i as int)) == p_tags_rest(t@.skip(k as int), ts.deep_view()),
        decreases tlen - k,
    {
        let ghost tk = t@.skip(k as int);
        proof {
            assert(tk.len() == t@.len() - k);
            if k < t@.len() {
                assert(tk[0] == t@[k as int]);
                assert(tk.drop_first() =~= t@.skip(k + 1));
            }
        }
        if k == tlen {
            proof {
                assert(p_tags_rest(tk, ts.deep_view()) is None);
            }
            return None;
        }
        let c = t[k];
        if c == ']' {
            proof {
                assert(p_tags_rest(tk, ts.deep_view()) == Some((ts.deep_view(), t@.skip(k + 1))));
            }
            return Some((ts, k + 1));
        }
        if c != ',' {
            proof {
                assert(p_tags_rest(tk, ts.deep_view()) is None);
            }
            return None;
        }
        let (s, j2) = match parse_string_at(t, k + 1) {
            Some(x) => x,
            None => {
                proof {
                    assert(p_tags_rest(tk, ts.deep_view()) is None);
                }
                return None;
            },
        };
        let ghost ts0 = ts.deep_view();
        ts.push(s);
        proof {
            assert(ts.deep_view() =~= ts0.push(s@));
            assert(t@.skip(j2 as int).len() < tk.len());
        }
        k = j2;
    }
}

/// Reports whether a trimmed line opens with the reserved `_meta` member.
pub fn line_is_header(t: &Vec<char>) -> (b: bool)
    ensures
        b == is_header_line(t@),
{
    proof {
        assert(t@.skip(0) =~= t@);
    }
    match expect_lit(t, 0, "{\"_meta\":") {
        Some(_) => true,
        None => false,
    }
}

/// Consumes the three required string members at the head of a record line.
fn parse_front(t: &Vec<char>) -> (r: Option<((String, String, String), usize)>)
    ensures
        match r {
            Some(((id, title, content), j)) => j <= t@.len() && p_front(t@) == Some(
                ((id@, title@, content@), t@.skip(j as int)),
            ),
            None => p_front(t@) is None,
        },
{
    proof {
        assert(t@.skip(0) =~= t@);
    }
    let j1 = match expect_lit(t, 0, "{\"id\":") {
        Some(j) => j,
        None => {
            return None;
        },
    };
    let (id, j2) = match parse_string_at(t, j1) {
        Some(x) => x,
        None => {
            return None;
        },
    };
    let j3 = match expect_lit(t, j2, ",\"title\":") {
        Some(j) => j,
        None => {
            return None;
        },
    };
    let (title, j4) = match parse_string_at(t, j3) {
        Some(x) => x,
        None => {
            return None;
        },
    };
    let j5 = match expect_lit(t, j4, ",\"content\":") {
        Some(j) => j,
        None => {
            return None;
        },
    };
    let (content, j6) = match parse_string_at(t, j5) {
        Some(x) => x,
        None => {
            return None;
        },
    };
    Some(((id, title, content), j6))
}

/// Consumes the optional members, the tag array and the closing brace.
fn parse_back(t: &Vec<char>, i: usize) -> (r: Option<(Option<String>, Option<String>, Vec<String>)>)
    requires
        i <= t@.len(),
    ensures
        match r {
            Some((description, category, tags)) => p_back(t@.skip(i as int)) == Some(
                (description.deep_view(), category.deep_view(), tags.deep_view()),
            ),
            None => p_back(t@.skip(i as int)) is None,
        },
{
    let ghost ti = t@.skip(i as int);
    let j7 = match expect_lit(t, i, ",\"description\":") {
        Some(j) => j,
        None => {
            return None;
        },
    };
    let (description, j8) = match parse_opt_str_at(t, j7) {
        Some(x) => x,
        None => {
            return None;
        },
    };
    let j9 = match expect_lit(t, j8, ",\"category\":") {
        Some(j) => j,
        None => {
            return None;
        },
    };
    let (category, j10) = match parse_opt_str_at(t, j9) {
        Some(x) => x,
        None => {
            return None;
        },
    };
    let j11 = match expect_lit(t, j10, ",\"tags\":") {
        Some(j) => j,
        None => {
            return None;
        },
    };
    let (tags, j12) = match parse_tags_at(t, j11) {
        Some(x) => x,
        None => {
            return None;
        },
    };
    proof {
        reveal_strlit("}");
        assert(t@.skip(j12 as int).len() == t@.len() - j12);
        if j12 < t@.len() {
            assert(t@.skip(j12 as int)[0] == t@[j12 as int]);
        }
    }
    if j12 < t.len() && t.len() - j12 == 1 && t[j12] == '}' {
        proof {
            assert(t@.skip(j12 as int) =~= "}"@);
        }
        Some((description, category, tags))
    } else {
        proof {
            let t12 = t@.skip(j12 as int);
            if t12 =~= "}"@ {
                assert(t12.len() == 1);
                assert(t12[0] == '}');
                assert(false);
            }
        }
        None
    }
}

/// Parses a whole trimmed line as a canonical record line.
pub fn parse_record_line(t: &Vec<char>) -> (r: Option<crate::prompt::Prompt>)
    ensures
        match r {
            Some(p) => p_record(t@) == Some(p@),
            None => p_record(t@) is None,
        },
{
    let ((id, title, content), j6) = match parse_front(t) {
        Some(x) => x,
        None => {
            return None;
        },
    };
    let (description, category, tags) = match parse_back(t, j6) {
        Some(x) => x,
        None => {
            return None;
        },
    };
    let p = crate::prompt::Prompt { id, title, content, description, category, tags };
    proof {
        assert(p@ =~= (PromptV {
            id: p.id@,
            title: p.title@,
            content: p.content@,
            description: p.description.deep_view(),
            category: p.category.deep_view(),
            tags: p.tags.deep_view(),
        }));
    }
    Some(p)
}

// ---------------------------------------------------------------------------
// Line shape: encoded lines survive line splitting and trimming
// ---------------------------------------------------------------------------
/// No newline anywhere in `t`.
pub open spec fn no_nl(t: Seq<char>) -> bool {
    forall|i: int| 0 <= i < t.len() ==> #[trigger] t[i] != '\n'
}

/// A clean line: non-empty, no embedded newline, and no whitespace at
/// either end, so splitting and trimming hand it back unchanged.
pub open spec fn line_clean(t: Seq<char>) -> bool {
    &&& t.len() > 0
    &&& !crate::chars::is_ws(t[0])
    &&& !crate::chars::is_ws(t[t.len() - 1])
    &&& no_nl(t)
}

proof fn lemma_no_nl_app(a: Seq<char>, b: Seq<char>)
    requires
        no_nl(a),
        no_nl(b),
    ensures
        no_nl(a + b),
{
    assert forall|i: int| 0 <= i < (a + b).len() implies #[trigger] (a + b)[i] != '\n' by {
        if i < a.len() {
            assert((a + b)[i] == a[i]);
        } else {
            assert((a + b)[i] == b[i - a.len()]);
        }
    }
}

proof fn lemma_esc_no_nl(c: char)
    ensures
        no_nl(esc(c)),
{
    lemma_hex_digit_val((c as u32) as int % 16);
    if !(c == '"' || c == '\\' || c == '\u{8}' || c == '\u{c}' || c == '\n' || c == '\r' || c
        == '\t') && (c as u32) < 0x20 {
        lemma_hex_digit_val((c as u32) as int / 16);
    }
}

proof fn lemma_enc_str_body_no_nl(t: Seq<char>)
    ensures
        no_nl(enc_str_body(t)),
    decreases t.len(),
{
    if t.len() > 0 {
        lemma_esc_no_nl(t[0]);
        lemma_enc_str_body_no_nl(t.drop_first());
        lemma_no_nl_app(esc(t[0]), enc_str_body(t.drop_first()));
    }
}

proof fn lemma_enc_string_no_nl(t: Seq<char>)
    ensures
        no_nl(enc_string(t)),
{
    lemma_enc_str_body_no_nl(t);
    lemma_no_nl_app(seq!['"'], enc_str_body(t));
    lemma_no_nl_app(seq!['"'] + enc_str_body(t), seq!['"']);
}

proof fn lemma_enc_opt_str_no_nl(o: Option<Seq<char>>)
    ensures
        no_nl(enc_opt_str(o)),
{
    match o {
        Some(t) => {
            lemma_enc_string_no_nl(t);
        },
        None => {},
    }
}

proof fn lemma_enc_uint_no_nl(n: nat)
    ensures
        no_nl(enc_uint(n)),
{
    lemma_enc_uint_digits(n);
    assert forall|i: int| 0 <= i < enc_uint(n).len() implies #[trigger] enc_uint(n)[i] != '\n' by {
        assert(is_digit(enc_uint(n)[i]));
    }
}

proof fn lemma_enc_int_no_nl(v: int)
    ensures
        no_nl(enc_int(v)),
{
    lemma_enc_uint_no_nl(v as nat);
    if v < 0 {
        lemma_enc_uint_no_nl((-v) as nat);
        lemma_no_nl_app(seq!['-'], enc_uint((-v) as nat));
    }
}

proof fn lemma_enc_tags_rest_no_nl(ts: Seq<Seq<char>>)
    ensures
        no_nl(enc_tags_rest(ts)),
    decreases ts.len(),
{
    if ts.len() > 0 {
        lemma_enc_string_no_nl(ts[0]);
        lemma_enc_tags_rest_no_nl(ts.drop_first());
        lemma_no_nl_app(seq![','], enc_string(ts[0]));
        lemma_no_nl_app(seq![','] + enc_string(ts[0]), enc_tags_rest(ts.drop_first()));
    }
}

proof fn lemma_enc_tags_no_nl(ts: Seq<Seq<char>>)
    ensures
        no_nl(enc_tags(ts)),
{
    if ts.len() > 0 {
        lemma_enc_string_no_nl(ts[0]);
        lemma_enc_tags_rest_no_nl(ts.drop_first());
        lemma_no_nl_app(seq!['['], enc_string(ts[0]));
        lemma_no_nl_app(seq!['['] + enc_string(ts[0]), enc_tags_rest(ts.drop_first()));
        lemma_no_nl_app(seq!['['] + enc_string(ts[0]) + enc_tags_rest(ts.drop_first()), seq![']']);
    }
}

proof fn lemma_strlit_no_nl_record()
    ensures
        no_nl("{\"id\":"@),
        no_nl(",\"title\":"@),
        no_nl(",\"content\":"@),
        no_nl(",\"description\":"@),
        no_nl(",\"category\":"@),
        no_nl(",\"tags\":"@),
        no_nl("}"@),
        "{\"id\":"@[0] == '{',
        "{\"id\":"@.len() == 6,
        "}"@ == seq!['}'],
{
    reveal_strlit("{\"id\":");
    reveal_strlit(",\"title\":");
    reveal_strlit(",\"content\":");
    reveal_strlit(",\"description\":");
    reveal_strlit(",\"category\":");
    reveal_strlit(",\"tags\":");
    reveal_strlit("}");
    assert("}"@ =~= seq!['}']);
}

/// A record line is clean: splitting and trimming cannot disturb it.
#[verifier::rlimit(100)]
#[verifier::spinoff_prover]
pub proof fn lemma_enc_prompt_clean(p: PromptV)
    ensures
        line_clean(enc_prompt(p)),
{
    let t = enc_prompt(p);
    lemma_strlit_no_nl_record();
    lemma_enc_string_no_nl(p.id);
    lemma_enc_string_no_nl(p.title);
    lemma_enc_string_no_nl(p.content);
    lemma_enc_opt_str_no_nl(p.description);
    lemma_enc_opt_str_no_nl(p.category);
    lemma_enc_tags_no_nl(p.tags);
    let a1 = "{\"id\":"@ + enc_string(p.id);
    lemma_no_nl_app("{\"id\":"@, enc_string(p.id));
    let a2 = a1 + ",\"title\":"@;
    lemma_no_nl_app(a1, ",\"title\":"@);
    let a3 = a2 + enc_string(p.title);
    lemma_no_nl_app(a2, enc_string(p.title));
    let a4 = a3 + ",\"content\":"@;
    lemma_no_nl_app(a3, ",\"content\":"@);
    let a5 = a4 + enc_string(p.content);
    lemma_no_nl_app(a4, enc_string(p.content));
    let a6 = a5 + ",\"description\":"@;
    lemma_no_nl_app(a5, ",\"description\":"@);
    let a7 = a6 + enc_opt_str(p.description);
    lemma_no_nl_app(a6, enc_opt_str(p.description));
    let a8 = a7 + ",\"category\":"@;
    lemma_no_nl_app(a7, ",\"category\":"@);
    let a9 = a8 + enc_opt_str(p.category);
    lemma_no_nl_app(a8, enc_opt_str(p.category));
    let a10 = a9 + ",\"tags\":"@;
    lemma_no_nl_app(a9, ",\"tags\":"@);
    let a11 = a10 + enc_tags(p.tags);
    lemma_no_nl_app(a10, enc_tags(p.tags));
    let a12 = a11 + "}"@;
    lemma_no_nl_app(a11, "}"@);
    assert(t == a12);
    assert(a1[0] == "{\"id\":"@[0]);
    assert(a2[0] == a1[0]);
    assert(a3[0] == a1[0]);
    assert(a4[0] == a1[0]);
    assert(a5[0] == a1[0]);
    assert(a6[0] == a1[0]);
    assert(a7[0] == a1[0]);
    assert(a8[0] == a1[0]);
    assert(a9[0] == a1[0]);
    assert(a10[0] == a1[0]);
    assert(a11[0] == a1[0]);
    assert(a12[0] == a1[0]);
    assert(t[t.len() - 1] == '}');
}

proof fn lemma_strlit_no_nl_meta()
    ensures
        no_nl("{\"_meta\":{\"version\":"@),
        no_nl(",\"count\":"@),
        no_nl(",\"exported_at\":"@),
        no_nl(",\"schema_version\":"@),
        no_nl("}}"@),
        "{\"_meta\":{\"version\":"@[0] == '{',
        "{\"_meta\":{\"version\":"@.len() == 20,
        "}}"@ == seq!['}', '}'],
{
    reveal_strlit("{\"_meta\":{\"version\":");
    reveal_strlit(",\"count\":");
    reveal_strlit(",\"exported_at\":");
    reveal_strlit(",\"schema_version\":");
    reveal_strlit("}}");
    assert("}}"@ =~= seq!['}', '}']);
}

/// A header line is clean: splitting and trimming cannot disturb it.
#[verifier::rlimit(100)]
#[verifier::spinoff_prover]
pub proof fn lemma_enc_meta_clean(m: MetaV)
    ensures
        line_clean(enc_meta(m)),
{
    let t = enc_meta(m);
    lemma_strlit_no_nl_meta();
    lemma_enc_string_no_nl(m.version);
    lemma_enc_uint_no_nl(m.count);
    lemma_enc_string_no_nl(m.exported_at);
    lemma_enc_int_no_nl(m.schema_version);
    let a1 = "{\"_meta\":{\"version\":"@ + enc_string(m.version);
    lemma_no_nl_app("{\"_meta\":{\"version\":"@, enc_string(m.version));
    let a2 = a1 + ",\"count\":"@;
    lemma_no_nl_app(a1, ",\"count\":"@);
    let a3 = a2 + enc_uint(m.count);
    lemma_no_nl_app(a2, enc_uint(m.count));
    let a4 = a3 + ",\"exported_at\":"@;
    lemma_no_nl_app(a3, ",\"exported_at\":"@);
    let a5 = a4 + enc_string(m.exported_at);
    lemma_no_nl_app(a4, enc_string(m.exported_at));
    let a6 = a5 + ",\"schema_version\":"@;
    lemma_no_nl_app(a5, ",\"schema_version\":"@);
    let a7 = a6 + enc_int(m.schema_version);
    lemma_no_nl_app(a6, enc_int(m.schema_version));
    let a8 = a7 + "}}"@;
    lemma_no_nl_app(a7, "}}"@);
    assert(t == a8);
    assert(a1[0] == "{\"_meta\":{\"version\":"@[0]);
    assert(a2[0] == a1[0]);
    assert(a3[0] == a1[0]);
    assert(a4[0] == a1[0]);
    assert(a5[0] == a1[0]);
    assert(a6[0] == a1[0]);
    assert(a7[0] == a1[0]);
    assert(a8[0] == a1[0]);
    assert(t[t.len() - 1] == '}');
}

} // verus!
