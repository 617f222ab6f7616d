use vstd::prelude::*;

verus! {

/// The persisted regional configuration: a profile name and a region name.
/// Its view is the pair (profile, region) as character sequences.
#[derive(Debug)]
pub struct LightswitchConfig {
    profile: String,
    region: String,
}

/// How loading a configuration can fail: the file is absent (a recoverable
/// signal that triggers first-run setup), unreadable, or does not hold a
/// well-formed configuration record.
#[derive(Debug, Eq, PartialEq, Clone, Copy, Structural)]
pub enum ConfigError {
    NotFound,
    Io,
    Malformed,
}

impl View for LightswitchConfig {
    type V = (Seq<char>, Seq<char>);

    closed spec fn view(&self) -> (Seq<char>, Seq<char>) {
        (self.profile@, self.region@)
    }
}

/// JSON whitespace.
pub open spec fn is_ws(c: char) -> bool {
    c == ' ' || c == '\t' || c == '\n' || c == '\r'
}

/// The lowercase hexadecimal digit for a value below sixteen.
pub open spec fn hex_char(d: int) -> char {
    if d < 10 {
        ((d + 48) as u8) as char
    } else {
        ((d + 87) as u8) as char
    }
}

/// A hexadecimal digit in either case.
pub open spec fn is_hex_digit(c: char) -> bool {
    48 <= c as u32 <= 57 || 97 <= c as u32 <= 102 || 65 <= c as u32 <= 70
}

/// The value of a hexadecimal digit.
pub open spec fn hex_val(c: char) -> int {
    if 97 <= c as u32 {
        c as u32 - 87
    } else if 65 <= c as u32 {
        c as u32 - 55
    } else {
        c as u32 - 48
    }
}

/// How one character is written inside a JSON string: quote and backslash
/// are escaped, control characters become a four-digit escape, everything
/// else stands as itself.
pub open spec fn escape_char(c: char) -> Seq<char> {
    if c == '"' {
        seq!['\\', '"']
    } else if c == '\\' {
        seq!['\\', '\\']
    } else if (c as u32) < 32 {
        seq!['\\', 'u', '0', '0', hex_char((c as u32) as int / 16), hex_char((c as u32) as int % 16)]
    } else {
        seq![c]
    }
}

/// How a character sequence is written inside a JSON string.
pub open spec fn escape(s: Seq<char>) -> Seq<char>
    decreases s.len(),
{
    if s.len() == 0 {
        Seq::empty()
    } else {
        escape_char(s[0]) + escape(s.skip(1))
    }
}

/// The serialized form of a configuration record: a compact JSON object with
/// the `profile` and `region` fields, in that order.
pub open spec fn json_of(profile: Seq<char>, region: Seq<char>) -> Seq<char> {
    "{\"profile\":\""@ + escape(profile) + "\",\"region\":\""@ + escape(region) + "\"}"@
}

/// The first position at or after `i` holding no whitespace.
pub open spec fn skip_ws(s: Seq<char>, i: int) -> int
    decreases s.len() - i,
{
    if i < s.len() && 0 <= i && is_ws(s[i]) {
        skip_ws(s, i + 1)
    } else {
        i
    }
}

/// What a two-character escape stands for, if anything.
pub open spec fn simple_escape(e: char) -> Option<char> {
    if e == '"' {
        Some('"')
    } else if e == '\\' {
        Some('\\')
    } else if e == '/' {
        Some('/')
    } else if e == 'b' {
        Some('\u{0008}')
    } else if e == 'f' {
        Some('\u{000C}')
    } else if e == 'n' {
        Some('\n')
    } else if e == 'r' {
        Some('\r')
    } else if e == 't' {
        Some('\t')
    } else {
        None
    }
}

/// Reads the rest of a JSON string, the opening quote already consumed:
/// the decoded characters and the position after the closing quote. Accepts
/// the escapes the serialized form uses (with four-digit escapes kept below
/// 0x100, which covers every escape the encoder emits); bare control
/// characters are rejected.
pub open spec fn parse_str_body(s: Seq<char>, i: int) -> Option<(Seq<char>, int)>
    decreases s.len() - i,
{
    if i < 0 || i >= s.len() {
        None
    } else if s[i] == '"' {
        Some((Seq::empty(), i + 1))
    } else if s[i] == '\\' {
        if i + 1 >= s.len() {
            None
        } else if s[i + 1] == 'u' {
            if i + 6 <= s.len() && is_hex_digit(s[i + 2]) && is_hex_digit(s[i + 3]) && is_hex_digit(
                s[i + 4],
            ) && is_hex_digit(s[i + 5]) {
                let v = hex_val(s[i + 2]) * 4096 + hex_val(s[i + 3]) * 256 + hex_val(s[i + 4]) * 16
                    + hex_val(s[i + 5]);
                if v < 256 {
                    match parse_str_body(s, i + 6) {
                        Some((rest, j)) => Some((seq![(v as u8) as char] + rest, j)),
                        None => None,
                    }
                } else {
                    None
                }
            } else {
                None
            }
        } else {
            match simple_escape(s[i + 1]) {
                Some(c) => match parse_str_body(s, i + 2) {
                    Some((rest, j)) => Some((seq![c] + rest, j)),
                    None => None,
                },
                None => None,
            }
        }
    } else if (s[i] as u32) < 32 {
        None
    } else {
        match parse_str_body(s, i + 1) {
            Some((rest, j)) => Some((seq![s[i]] + rest, j)),
            None => None,
        }
    }
}

/// Reads a JSON string starting at its opening quote.
pub open spec fn parse_string(s: Seq<char>, i: int) -> Option<(Seq<char>, int)> {
    if 0 <= i < s.len() && s[i] == '"' {
        parse_str_body(s, i + 1)
    } else {
        None
    }
}

/// What a serialized configuration record holds: the profile and region
/// values, provided the text is one JSON object with exactly the `profile`
/// and `region` string fields, in that order, and nothing but whitespace
/// around the tokens.
pub open spec fn parse_cfg_view(s: Seq<char>) -> Option<(Seq<char>, Seq<char>)> {
    let i0 = skip_ws(s, 0);
    if !(i0 < s.len() && s[i0] == '{') {
        None
    } else {
        match parse_string(s, skip_ws(s, i0 + 1)) {
            None => None,
            Some((key1, i2)) => if key1 != "profile"@ {
                None
            } else {
                let i3 = skip_ws(s, i2);
                if !(i3 < s.len() && s[i3] == ':') {
                    None
                } else {
                    match parse_string(s, skip_ws(s, i3 + 1)) {
                        None => None,
                        Some((profile, i5)) => {
                            let i6 = skip_ws(s, i5);
                            if !(i6 < s.len() && s[i6] == ',') {
                                None
                            } else {
                                match parse_string(s, skip_ws(s, i6 + 1)) {
                                    None => None,
                                    Some((key2, i8)) => if key2 != "region"@ {
                                        None
                                    } else {
                                        let i9 = skip_ws(s, i8);
                                        if !(i9 < s.len() && s[i9] == ':') {
                                            None
                                        } else {
                                            match parse_string(s, skip_ws(s, i9 + 1)) {
                                                None => None,
                                                Some((region, i11)) => {
                                                    let i12 = skip_ws(s, i11);
                                                    if !(i12 < s.len() && s[i12] == '}') {
                                                        None
                                                    } else if skip_ws(s, i12 + 1) != s.len() {
                                                        None
                                                    } else {
                                                        Some((profile, region))
                                                    }
                                                },
                                            }
                                        }
                                    },
                                }
                            }
                        },
                    }
                }
            },
        }
    }
}

proof fn lemma_escape_plain(x: Seq<char>)
    requires
        forall|k: int| 0 <= k < x.len() ==> x[k] != '"' && x[k] != '\\' && x[k] as u32 >= 32,
    ensures
        escape(x) == x,
    decreases x.len(),
{
    if x.len() == 0 {
        assert(escape(x) =~= x);
    } else {
        assert(forall|k: int| 0 <= k < x.skip(1).len() ==> x.skip(1)[k] == x[k + 1]);
        lemma_escape_plain(x.skip(1));
        assert(escape_char(x[0]) == seq![x[0]]);
        assert(seq![x[0]] + x.skip(1) =~= x);
    }
}

proof fn lemma_parse_escaped_body(s: Seq<char>, i: int, x: Seq<char>)
    requires
        0 <= i,
        i + escape(x).len() < s.len(),
        s.subrange(i, i + escape(x).len()) == escape(x),
        s[i + escape(x).len()] == '"',
    ensures
        parse_str_body(s, i) == Some((x, i + escape(x).len() + 1)),
    decreases x.len(),
{
    if x.len() == 0 {
        assert(escape(x).len() == 0);
        assert(s[i] == '"');
        assert(x =~= Seq::<char>::empty());
    } else {
        let c = x[0];
        let e0 = escape_char(c);
        let tail = escape(x.skip(1));
        assert(escape(x) == e0 + tail);
        let l0 = e0.len() as int;
        let lt = tail.len() as int;
        let sub = s.subrange(i, i + escape(x).len());
        assert(sub == e0 + tail);
        assert forall|k: int| 0 <= k < lt implies s.subrange(i + l0, i + l0 + lt)[k] == tail[k] by {
            assert(s.subrange(i + l0, i + l0 + lt)[k] == s[i + l0 + k]);
            assert((e0 + tail)[l0 + k] == tail[k]);
            assert(sub[l0 + k] == s[i + l0 + k]);
        }
        assert(s.subrange(i + l0, i + l0 + lt) =~= tail);
        assert(s[i + l0 + lt] == '"');
        lemma_parse_escaped_body(s, i + l0, x.skip(1));
        assert(parse_str_body(s, i + l0) == Some((x.skip(1), i + l0 + lt + 1)));
        if c == '"' {
            assert(l0 == 2);
            assert((e0 + tail)[0] == e0[0] && (e0 + tail)[1] == e0[1]);
            assert(sub[0] == s[i] && sub[1] == s[i + 1]);
            assert(s[i] == '\\' && s[i + 1] == '"');
            assert(simple_escape(s[i + 1]) == Some('"'));
            assert(seq![c] + x.skip(1) =~= x);
        } else if c == '\\' {
            assert(l0 == 2);
            assert((e0 + tail)[0] == e0[0] && (e0 + tail)[1] == e0[1]);
            assert(sub[0] == s[i] && sub[1] == s[i + 1]);
            assert(s[i] == '\\' && s[i + 1] == '\\');
            assert(simple_escape(s[i + 1]) == Some('\\'));
            assert(seq![c] + x.skip(1) =~= x);
        } else if (c as u32) < 32 {
            let u = (c as u32) as int;
            assert(l0 == 6);
            assert((e0 + tail)[0] == e0[0] && (e0 + tail)[1] == e0[1] && (e0 + tail)[2] == e0[2]
                && (e0 + tail)[3] == e0[3] && (e0 + tail)[4] == e0[4] && (e0 + tail)[5] == e0[5]);
            assert(sub[0] == s[i] && sub[1] == s[i + 1] && sub[2] == s[i + 2] && sub[3] == s[i + 3]
                && sub[4] == s[i + 4] && sub[5] == s[i + 5]);
            assert(s[i] == '\\' && s[i + 1] == 'u' && s[i + 2] == '0' && s[i + 3] == '0');
            assert(s[i + 4] == hex_char(u / 16) && s[i + 5] == hex_char(u % 16));
            assert(is_hex_digit('0') && hex_val('0') == 0);
            assert(is_hex_digit(hex_char(u / 16)) && hex_val(hex_char(u / 16)) == u / 16);
            assert(is_hex_digit(hex_char(u % 16)) && hex_val(hex_char(u % 16)) == u % 16);
            let v = hex_val(s[i + 2]) * 4096 + hex_val(s[i + 3]) * 256 + hex_val(s[i + 4]) * 16
                + hex_val(s[i + 5]);
            assert(v == (u / 16) * 16 + u % 16);
            assert(v == u);
            assert((v as u8) as u32 == c as u32);
            vstd::utf8::char_u32_cast(c, (v as u8) as u32);
            assert(((v as u8) as u32) as char == c);
            assert((v as u8) as char == c);
            assert(seq![c] + x.skip(1) =~= x);
        } else {
            assert(l0 == 1);
            assert((e0 + tail)[0] == e0[0]);
            assert(sub[0] == s[i]);
            assert(s[i] == c);
            assert(seq![c] + x.skip(1) =~= x);
        }
    }
}

/// Saving a configuration and loading it back yields the same record: the
/// serialized form of any profile and region decodes to exactly that profile
/// and region.
#[verifier::rlimit(80)]
pub proof fn lemma_config_round_trip(profile: Seq<char>, region: Seq<char>)
    ensures
        parse_cfg_view(json_of(profile, region)) == Some((profile, region)),
{
    let l1 = "{\"profile\":\""@;
    let l2 = "\",\"region\":\""@;
    let l3 = "\"}"@;
    let ep = escape(profile);
    let er = escape(region);
    let s = json_of(profile, region);
    reveal_strlit("{\"profile\":\"");
    reveal_strlit("\",\"region\":\"");
    reveal_strlit("\"}");
    reveal_strlit("profile");
    reveal_strlit("region");
    assert(l1.len() == 12 && l2.len() == 12 && l3.len() == 2);
    let o2 = 12 + ep.len() as int;
    let o3 = o2 + 12;
    let o4 = o3 + er.len() as int;
    assert(s.len() == o4 + 2);
    assert forall|k: int| 0 <= k < 12 implies s[k] == l1[k] by {}
    assert forall|k: int| 0 <= k < ep.len() implies s[12 + k] == ep[k] by {}
    assert forall|k: int| 0 <= k < 12 implies s[o2 + k] == l2[k] by {}
    assert forall|k: int| 0 <= k < er.len() implies s[o3 + k] == er[k] by {}
    assert(s[o4] == l3[0] && s[o4 + 1] == l3[1]);
    // the opening brace and the profile key
    assert(s[0] == '{' && !is_ws(s[0]));
    assert(skip_ws(s, 0) == 0);
    assert(s[1] == '"' && !is_ws(s[1]));
    assert(skip_ws(s, 1) == 1);
    let key1 = "profile"@;
    assert(key1.len() == 7);
    assert(forall|k: int| 0 <= k < key1.len() ==> key1[k] != '"' && key1[k] != '\\' && key1[k]
        as u32 >= 32);
    lemma_escape_plain(key1);
    assert(s.subrange(2, 9) =~= key1);
    assert(s[9] == '"');
    lemma_parse_escaped_body(s, 2, key1);
    assert(parse_string(s, 1) == Some((key1, 10int)));
    // the colon and the profile value
    assert(s[10] == ':' && !is_ws(s[10]));
    assert(skip_ws(s, 10) == 10);
    assert(s[11] == '"' && !is_ws(s[11]));
    assert(skip_ws(s, 11) == 11);
    assert(s.subrange(12, 12 + ep.len() as int) =~= ep);
    assert(s[12 + ep.len() as int] == '"');
    lemma_parse_escaped_body(s, 12, profile);
    assert(parse_string(s, 11) == Some((profile, o2 + 1)));
    // the comma and the region key
    assert(s[o2 + 1] == ',' && !is_ws(s[o2 + 1]));
    assert(skip_ws(s, o2 + 1) == o2 + 1);
    assert(s[o2 + 2] == '"' && !is_ws(s[o2 + 2]));
    assert(skip_ws(s, o2 + 2) == o2 + 2);
    let key2 = "region"@;
    assert(key2.len() == 6);
    assert(forall|k: int| 0 <= k < key2.len() ==> key2[k] != '"' && key2[k] != '\\' && key2[k]
        as u32 >= 32);
    lemma_escape_plain(key2);
    assert(s.subrange(o2 + 3, o2 + 9) =~= key2);
    assert(s[o2 + 9] == '"');
    lemma_parse_escaped_body(s, o2 + 3, key2);
    assert(parse_string(s, o2 + 2) == Some((key2, o2 + 10)));
    // the colon and the region value
    assert(s[o2 + 10] == ':' && !is_ws(s[o2 + 10]));
    assert(skip_ws(s, o2 + 10) == o2 + 10);
    assert(s[o2 + 11] == '"' && !is_ws(s[o2 + 11]));
    assert(skip_ws(s, o2 + 11) == o2 + 11);
    assert(s.subrange(o3, o3 + er.len() as int) =~= er);
    assert(s[o3 + er.len() as int] == '"');
    lemma_parse_escaped_body(s, o3, region);
    assert(parse_string(s, o2 + 11) == Some((region, o4 + 1)));
    // the closing brace and the end of the text
    assert(s[o4 + 1] == '}' && !is_ws(s[o4 + 1]));
    assert(skip_ws(s, o4 + 1) == o4 + 1);
    assert(skip_ws(s, o4 + 2) == s.len());
    assert(key1 == "profile"@ && key2 == "region"@);
}

/// Relies on std's `String: FromIterator<char>`: collecting characters
/// yields a string holding exactly those characters in that order.
#[verifier::external_body]
pub(crate) fn string_from_chars(v: &Vec<char>) -> (s: String)
    ensures
        s@ == v@,
{
    v.iter().collect()
}

/// Appends the characters of a string slice to a character vector.
pub(crate) fn append_str_chars(buf: &mut Vec<char>, s: &str)
    ensures
        final(buf)@ == old(buf)@ + s@,
{
    let n = s.unicode_len();
    let mut i: usize = 0;
    while i < n
        invariant
            n == s@.len(),
            0 <= i <= n,
            buf@ == old(buf)@ + s@.subrange(0, i as int),
        decreases n - i,
    {
        buf.push(s.get_char(i));
        proof {
            assert(s@.subrange(0, i as int).push(s@[i as int]) =~= s@.subrange(0, i as int + 1));
            assert(buf@ =~= old(buf)@ + s@.subrange(0, i as int + 1));
        }
        i = i + 1;
    }
    proof {
        assert(s@.subrange(0, n as int) =~= s@);
    }
}

proof fn lemma_escape_snoc(s: Seq<char>, c: char)
    ensures
        escape(s.push(c)) == escape(s) + escape_char(c),
    decreases s.len(),
{
    if s.len() == 0 {
        assert(s.push(c)[0] == c);
        assert(s.push(c).skip(1) =~= Seq::<char>::empty());
        assert(escape(s.push(c)) == escape_char(c) + escape(Seq::<char>::empty()));
        assert(escape(Seq::<char>::empty()) =~= Seq::<char>::empty());
        assert(escape_char(c) + Seq::<char>::empty() =~= escape_char(c));
        assert(escape(s) =~= Seq::<char>::empty());
        assert(Seq::<char>::empty() + escape_char(c) =~= escape_char(c));
    } else {
        assert(s.push(c)[0] == s[0]);
        assert(s.push(c).skip(1) =~= s.skip(1).push(c));
        lemma_escape_snoc(s.skip(1), c);
        assert(escape(s.push(c)) == escape_char(s[0]) + (escape(s.skip(1)) + escape_char(c)));
        assert(escape_char(s[0]) + (escape(s.skip(1)) + escape_char(c)) =~= (escape_char(s[0])
            + escape(s.skip(1))) + escape_char(c));
    }
}

/// Appends the escaped form of a string slice to a character vector.
fn escape_append(buf: &mut Vec<char>, s: &str)
    ensures
        final(buf)@ == old(buf)@ + escape(s@),
{
    let n = s.unicode_len();
    let mut i: usize = 0;
    while i < n
        invariant
            n == s@.len(),
            0 <= i <= n,
            buf@ == old(buf)@ + escape(s@.subrange(0, i as int)),
        decreases n - i,
    {
        let ghost prev = buf@;
        let c = s.get_char(i);
        if c == '"' {
            buf.push('\\');
            buf.push('"');
            assert(buf@ =~= prev + escape_char(c));
        } else if c == '\\' {
            buf.push('\\');
            buf.push('\\');
            assert(buf@ =~= prev + escape_char(c));
        } else if (c as u32) < 32 {
            let u = c as u32;
            let d1 = u / 16;
            let d0 = u % 16;
            buf.push('\\');
            buf.push('u');
            buf.push('0');
            buf.push('0');
            buf.push(if d1 < 10 {
                ((d1 + 48) as u8) as char
            } else {
                ((d1 + 87) as u8) as char
            });
            buf.push(if d0 < 10 {
                ((d0 + 48) as u8) as char
            } else {
                ((d0 + 87) as u8) as char
            });
            assert(buf@ =~= prev + escape_char(c));
        } else {
            buf.push(c);
            assert(buf@ =~= prev + escape_char(c));
        }
        proof {
            lemma_escape_snoc(s@.subrange(0, i as int), c);
            assert(s@.subrange(0, i as int).push(c) =~= s@.subrange(0, i as int + 1));
            assert(buf@ =~= old(buf)@ + escape(s@.subrange(0, i as int + 1)));
        }
        i = i + 1;
    }
    proof {
        assert(s@.subrange(0, n as int) =~= s@);
    }
}

fn skip_ws_exec(v: &Vec<char>, i: usize) -> (r: usize)
    requires
        i <= v@.len(),
    ensures
        r as int == skip_ws(v@, i as int),
        i <= r <= v@.len(),
{
    let mut j = i;
    while j < v.len() && (v[j] == ' ' || v[j] == '\t' || v[j] == '\n' || v[j] == '\r')
        invariant
            i <= j <= v@.len(),
            skip_ws(v@, i as int) == skip_ws(v@, j as int),
        decreases v@.len() - j,
    {
        j = j + 1;
    }
    j
}

fn simple_escape_exec(e: char) -> (r: Option<char>)
    ensures
        r == simple_escape(e),
{
    if e == '"' {
        Some('"')
    } else if e == '\\' {
        Some('\\')
    } else if e == '/' {
        Some('/')
    } else if e == 'b' {
        Some('\u{0008}')
    } else if e == 'f' {
        Some('\u{000C}')
    } else if e == 'n' {
        Some('\n')
    } else if e == 'r' {
        Some('\r')
    } else if e == 't' {
        Some('\t')
    } else {
        None
    }
}

fn is_hex_digit_exec(c: char) -> (r: bool)
    ensures
        r == is_hex_digit(c),
{
    let u = c as u32;
    (48 <= u && u <= 57) || (97 <= u && u <= 102) || (65 <= u && u <= 70)
}

fn hex_val_exec(c: char) -> (r: u32)
    requires
        is_hex_digit(c),
    ensures
        r as int == hex_val(c),
        r < 16,
{
    let u = c as u32;
    if 97 <= u {
        u - 87
    } else if 65 <= u {
        u - 55
    } else {
        u - 48
    }
}

fn parse_str_body_exec(v: &Vec<char>, i: usize) -> (r: Option<(Vec<char>, usize)>)
    requires
        i <= v@.len(),
    ensures
        match r {
            Some(p) => parse_str_body(v@, i as int) == Some((p.0@, p.1 as int)) && i < p.1
                <= v@.len(),
            None => parse_str_body(v@, i as int) is None,
        },
    decreases v@.len() - i,
{
    if i >= v.len() {
        return None;
    }
    let c = v[i];
    if c == '"' {
        return Some((Vec::new(), i + 1));
    }
    if c == '\\' {
        if v.len() - i <= 1 {
            return None;
        }
        let e = v[i + 1];
        if e == 'u' {
            if v.len() - i < 6 {
                return None;
            }
            if !(is_hex_digit_exec(v[i + 2]) && is_hex_digit_exec(v[i + 3]) && is_hex_digit_exec(
                v[i + 4],
            ) && is_hex_digit_exec(v[i + 5])) {
                return None;
            }
            let val = hex_val_exec(v[i + 2]) * 4096 + hex_val_exec(v[i + 3]) * 256 + hex_val_exec(
                v[i + 4],
            ) * 16 + hex_val_exec(v[i + 5]);
            if val >= 256 {
                return None;
            }
            match parse_str_body_exec(v, i + 6) {
                Some((mut rest, j)) => {
                    rest.insert(0, (val as u8) as char);
                    assert(rest@ =~= seq![((val as u8) as char)] + rest@.skip(1));
                    Some((rest, j))
                },
                None => None,
            }
        } else {
            match simple_escape_exec(e) {
                Some(c2) => match parse_str_body_exec(v, i + 2) {
                    Some((mut rest, j)) => {
                        rest.insert(0, c2);
                        assert(rest@ =~= seq![c2] + rest@.skip(1));
                        Some((rest, j))
                    },
                    None => None,
                },
                None => None,
            }
        }
    } else if (c as u32) < 32 {
        None
    } else {
        match parse_str_body_exec(v, i + 1) {
            Some((mut rest, j)) => {
                rest.insert(0, c);
                assert(rest@ =~= seq![c] + rest@.skip(1));
                Some((rest, j))
            },
            None => None,
        }
    }
}

fn parse_string_exec(v: &Vec<char>, i: usize) -> (r: Option<(Vec<char>, usize)>)
    requires
        i <= v@.len(),
    ensures
        match r {
            Some(p) => parse_string(v@, i as int) == Some((p.0@, p.1 as int)) && i < p.1
                <= v@.len(),
            None => parse_string(v@, i as int) is None,
        },
{
    if i < v.len() && v[i] == '"' {
        parse_str_body_exec(v, i + 1)
    } else {
        None
    }
}

/// Whether a character vector holds exactly the characters of a string slice.
fn chars_match_str(v: &Vec<char>, s: &str) -> (r: bool)
    ensures
        r == (v@ == s@),
{
    let n = s.unicode_len();
    if v.len() != n {
        return false;
    }
    let mut i: usize = 0;
    while i < n
        invariant
            n == s@.len(),
            v@.len() == n,
            0 <= i <= n,
            forall|t: int| 0 <= t < i ==> v@[t] == s@[t],
        decreases n - i,
    {
        if v[i] != s.get_char(i) {
            return false;
        }
        i = i + 1;
    }
    proof {
        assert(v@ =~= s@);
    }
    true
}

impl LightswitchConfig {
    /// A fresh configuration for the given region, under the default profile.
    pub fn new(region: &str) -> (cfg: Self)
        ensures
            cfg@ == ("default"@, region@),
    {
        LightswitchConfig { profile: String::from_str("default"), region: String::from_str(region) }
    }

    /// The configured profile name.
    pub fn get_profile(&self) -> (r: String)
        ensures
            r@ == self@.0,
    {
        self.profile.clone()
    }

    /// The configured region name.
    pub fn get_region(&self) -> (r: String)
        ensures
            r@ == self@.1,
    {
        self.region.clone()
    }

    /// Serializes the record: the exact JSON text `json_of` describes.
    pub fn to_json(&self) -> (out: String)
        ensures
            out@ == json_of(self@.0, self@.1),
    {
        let mut buf: Vec<char> = Vec::new();
        append_str_chars(&mut buf, "{\"profile\":\"");
        escape_append(&mut buf, self.profile.as_str());
        append_str_chars(&mut buf, "\",\"region\":\"");
        escape_append(&mut buf, self.region.as_str());
        append_str_chars(&mut buf, "\"}");
        proof {
            assert(buf@ =~= json_of(self@.0, self@.1));
        }
        string_from_chars(&buf)
    }

    /// Decodes a serialized record: the values `parse_cfg_view` reads from
    /// the text, or `Malformed` exactly when the text holds no record.
    #[verifier::rlimit(50)]
    pub fn from_json(s: &str) -> (r: Result<Self, ConfigError>)
        ensures
            match r {
                Ok(cfg) => parse_cfg_view(s@) == Some((cfg@.0, cfg@.1)),
                Err(e) => parse_cfg_view(s@) is None && e == ConfigError::Malformed,
            },
    {
        let mut v: Vec<char> = Vec::new();
        append_str_chars(&mut v, s);
        assert(v@ == s@);
        let i0 = skip_ws_exec(&v, 0);
        if !(i0 < v.len() && v[i0] == '{') {
            return Err(ConfigError::Malformed);
        }
        let key1 = match parse_string_exec(&v, skip_ws_exec(&v, i0 + 1)) {
            None => {
                return Err(ConfigError::Malformed);
            },
            Some(p) => p,
        };
        if !chars_match_str(&key1.0, "profile") {
            return Err(ConfigError::Malformed);
        }
        let i3 = skip_ws_exec(&v, key1.1);
        if !(i3 < v.len() && v[i3] == ':') {
            return Err(ConfigError::Malformed);
        }
        let profile = match parse_string_exec(&v, skip_ws_exec(&v, i3 + 1)) {
            None => {
                return Err(ConfigError::Malformed);
            },
            Some(p) => p,
        };
        let i6 = skip_ws_exec(&v, profile.1);
        if !(i6 < v.len() && v[i6] == ',') {
            return Err(ConfigError::Malformed);
        }
        let key2 = match parse_string_exec(&v, skip_ws_exec(&v, i6 + 1)) {
            None => {
                return Err(ConfigError::Malformed);
            },
            Some(p) => p,
        };
        if !chars_match_str(&key2.0, "region") {
            return Err(ConfigError::Malformed);
        }
        let i9 = skip_ws_exec(&v, key2.1);
        if !(i9 < v.len() && v[i9] == ':') {
            return Err(ConfigError::Malformed);
        }
        let region = match parse_string_exec(&v, skip_ws_exec(&v, i9 + 1)) {
            None => {
                return Err(ConfigError::Malformed);
            },
            Some(p) => p,
        };
        let i12 = skip_ws_exec(&v, region.1);
        if !(i12 < v.len() && v[i12] == '}') {
            return Err(ConfigError::Malformed);
        }
        if skip_ws_exec(&v, i12 + 1) != v.len() {
            return Err(ConfigError::Malformed);
        }
        Ok(
            LightswitchConfig {
                profile: string_from_chars(&profile.0),
                region: string_from_chars(&region.0),
            },
        )
    }
}

} // verus!
