//! The backing-store format: the registry as a pretty-printed JSON object
//! `{"projects": {alias: path, ...}}`, two-space indented, with the JSON
//! string escapes `\" \\ \n \r \t \b \f` and `\u00XX` for other control
//! characters. The writer emits exactly this shape; the reader accepts it
//! with arbitrary blanks between tokens and recovers the entries. Any text
//! the reader does not accept (including duplicate aliases, or `\uXXXX`
//! escapes that name a surrogate) yields the empty registry: corruption is
//! never an error.
use vstd::prelude::*;

use crate::config::{vec_model, Config};
use crate::model::{m_has, m_insert, m_val, m_wf, lemma_insert_val, lemma_insert_wf, Model};

verus! {

/// The hexadecimal digit for `n` (lower case).
pub open spec fn hex_digit(n: int) -> char {
    if n < 10 {
        (48 + n) as char
    } else {
        (87 + n) as char
    }
}

/// How one character is written inside a JSON string.
pub open spec fn escape_char(c: char) -> Seq<char> {
    if c == '"' {
        seq!['\\', '"']
    } else if c == '\\' {
        seq!['\\', '\\']
    } else if c == '\n' {
        seq!['\\', 'n']
    } else if c == '\r' {
        seq!['\\', 'r']
    } else if c == '\t' {
        seq!['\\', 't']
    } else if c as u32 == 8 {
        seq!['\\', 'b']
    } else if c as u32 == 12 {
        seq!['\\', 'f']
    } else if (c as u32) < 32 {
        seq!['\\', 'u', '0', '0', hex_digit(c as u32 as int / 16), hex_digit(c as u32 as int % 16)]
    } else {
        seq![c]
    }
}

/// A string's characters, escaped one by one.
pub open spec fn escape_str(s: Seq<char>) -> Seq<char>
    decreases s.len(),
{
    if s.len() == 0 {
        Seq::empty()
    } else {
        escape_char(s[0]) + escape_str(s.drop_first())
    }
}

/// A string as written: quoted and escaped.
pub open spec fn quoted(s: Seq<char>) -> Seq<char> {
    seq!['"'] + escape_str(s) + seq!['"']
}

/// One entry as written: `"alias": "path"`.
pub open spec fn entry_text(k: Seq<char>, v: Seq<char>) -> Seq<char> {
    quoted(k) + seq![':', ' '] + quoted(v)
}

/// The separator between entries: a comma, then the next entry's indent.
pub open spec fn sep_text() -> Seq<char> {
    seq![',', '\n', ' ', ' ', ' ', ' ']
}

/// All entries as written, joined by `sep_text`.
pub open spec fn entries_text(m: Model) -> Seq<char>
    decreases m.len(),
{
    if m.len() == 0 {
        Seq::empty()
    } else if m.len() == 1 {
        entry_text(m[0].0, m[0].1)
    } else {
        entry_text(m[0].0, m[0].1) + sep_text() + entries_text(m.drop_first())
    }
}

/// The opening of the document, up to the inner object: `{\n  "projects": `.
pub open spec fn header_text() -> Seq<char> {
    seq!['{', '\n', ' ', ' ', '"', 'p', 'r', 'o', 'j', 'e', 'c', 't', 's', '"', ':', ' ']
}

/// The whole backing store for a registry model.
pub open spec fn to_json_spec(m: Model) -> Seq<char> {
    if m.len() == 0 {
        header_text() + seq!['{', '}', '\n', '}']
    } else {
        header_text() + seq!['{', '\n', ' ', ' ', ' ', ' '] + entries_text(m) + seq![
            '\n',
            ' ',
            ' ',
            '}',
            '\n',
            '}',
        ]
    }
}

/// Escaping distributes over concatenation.
proof fn lemma_escape_str_app(a: Seq<char>, b: Seq<char>)
    ensures
        escape_str(a + b) == escape_str(a) + escape_str(b),
    decreases a.len(),
{
    if a.len() == 0 {
        assert(a + b =~= b);
        assert(escape_str(a) + escape_str(b) =~= escape_str(b));
    } else {
        lemma_escape_str_app(a.drop_first(), b);
        assert((a + b).len() > 0);
        assert((a + b)[0] == a[0]);
        assert((a + b).drop_first() =~= a.drop_first() + b);
        assert(escape_char(a[0]) + (escape_str(a.drop_first()) + escape_str(b)) =~= (escape_char(
            a[0],
        ) + escape_str(a.drop_first())) + escape_str(b));
    }
}

/// Escaping one more character appends its escape.
proof fn lemma_escape_str_snoc(s: Seq<char>, i: int)
    requires
        0 <= i < s.len(),
    ensures
        escape_str(s.take(i + 1)) == escape_str(s.take(i)) + escape_char(s[i]),
{
    assert(s.take(i + 1) =~= s.take(i) + seq![s[i]]);
    lemma_escape_str_app(s.take(i), seq![s[i]]);
    let one = seq![s[i]];
    assert(one.drop_first() =~= Seq::<char>::empty());
    assert(escape_str(one.drop_first()) =~= Seq::<char>::empty());
    assert(escape_str(one) == escape_char(one[0]) + escape_str(one.drop_first()));
    assert(escape_str(one) =~= escape_char(s[i]));
}

/// One more entry extends the written entries by a separator (except for
/// the first) and the entry's own text.
proof fn lemma_entries_text_snoc(m: Model, i: int)
    requires
        0 <= i < m.len(),
    ensures
        entries_text(m.take(i + 1)) == entries_text(m.take(i)) + (if i == 0 {
            Seq::<char>::empty()
        } else {
            sep_text()
        }) + entry_text(m[i].0, m[i].1),
    decreases i,
{
    if i == 0 {
        assert(m.take(1).len() == 1);
        assert(m.take(1)[0] == m[0]);
        assert(entries_text(m.take(0)) =~= Seq::<char>::empty());
        assert(entries_text(m.take(1)) =~= Seq::<char>::empty() + Seq::<char>::empty()
            + entry_text(m[0].0, m[0].1));
    } else {
        let md = m.drop_first();
        assert(forall|j: int| 0 <= j < md.len() ==> #[trigger] md[j] == m[j + 1]);
        lemma_entries_text_snoc(md, i - 1);
        let t1 = m.take(i + 1);
        let t0 = m.take(i);
        assert(t1.len() >= 2);
        assert(t1[0] == m[0]);
        assert(t0[0] == m[0]);
        assert(t1.drop_first() =~= md.take(i));
        assert(t0.drop_first() =~= md.take(i - 1));
        assert(entries_text(t1) == entry_text(m[0].0, m[0].1) + sep_text() + entries_text(
            md.take(i),
        ));
        if i == 1 {
            assert(t0.len() == 1);
            assert(entries_text(t0) == entry_text(m[0].0, m[0].1));
            assert(entries_text(md.take(0)) =~= Seq::<char>::empty());
            assert(entries_text(md.take(1)) == entries_text(md.take(0)) + Seq::<char>::empty()
                + entry_text(md[0].0, md[0].1));
            assert(entries_text(md.take(1)) =~= entry_text(md[0].0, md[0].1));
            assert(entries_text(t1) =~= entries_text(t0) + sep_text() + entry_text(
                m[1].0,
                m[1].1,
            ));
        } else {
            assert(t0.len() >= 2);
            assert(entries_text(t0) == entry_text(m[0].0, m[0].1) + sep_text() + entries_text(
                md.take(i - 1),
            ));
            assert(entries_text(md.take(i)) == entries_text(md.take(i - 1)) + sep_text()
                + entry_text(md[i - 1].0, md[i - 1].1));
            assert(entries_text(t1) =~= entries_text(t0) + sep_text() + entry_text(
                m[i].0,
                m[i].1,
            ));
        }
    }
}

/// A blank between tokens.
pub open spec fn is_ws(c: char) -> bool {
    c == ' ' || c == '\n' || c == '\r' || c == '\t'
}

/// `t` without its leading blanks.
pub open spec fn skip_ws(t: Seq<char>) -> Seq<char>
    decreases t.len(),
{
    if t.len() > 0 && is_ws(t[0]) {
        skip_ws(t.drop_first())
    } else {
        t
    }
}

/// The value of a hexadecimal digit, either case.
pub open spec fn hex_val(c: char) -> Option<int> {
    if '0' <= c && c <= '9' {
        Some(c as u32 - 48)
    } else if 'a' <= c && c <= 'f' {
        Some(c as u32 - 87)
    } else if 'A' <= c && c <= 'F' {
        Some(c as u32 - 55)
    } else {
        None
    }
}

/// The character a one-letter escape stands for.
pub open spec fn simple_unescape(e: char) -> Option<char> {
    if e == '"' {
        Some('"')
    } else if e == '\\' {
        Some('\\')
    } else if e == '/' {
        Some('/')
    } else if e == 'n' {
        Some('\n')
    } else if e == 'r' {
        Some('\r')
    } else if e == 't' {
        Some('\t')
    } else if e == 'b' {
        Some(8 as char)
    } else if e == 'f' {
        Some(12 as char)
    } else {
        None
    }
}

/// A code point a `char` can carry (no surrogates).
pub open spec fn valid_scalar(code: int) -> bool {
    (0 <= code && code < 0xD800) || (0xE000 <= code && code < 0x110000)
}

/// The value of four hexadecimal digits.
pub open spec fn hex4(a: char, b: char, c: char, d: char) -> Option<int> {
    if hex_val(a) is Some && hex_val(b) is Some && hex_val(c) is Some && hex_val(d) is Some {
        Some(
            hex_val(a)->Some_0 * 4096 + hex_val(b)->Some_0 * 256 + hex_val(c)->Some_0 * 16
                + hex_val(d)->Some_0,
        )
    } else {
        None
    }
}

/// Reads a JSON string body: `t` starts right after the opening quote.
/// Yields the unescaped content and the rest after the closing quote, or
/// nothing when the text is not a valid string.
pub open spec fn unescape(t: Seq<char>) -> Option<(Seq<char>, Seq<char>)>
    decreases t.len(),
{
    if t.len() == 0 {
        None
    } else if t[0] == '"' {
        Some((Seq::empty(), t.drop_first()))
    } else if t[0] == '\\' {
        if t.len() < 2 {
            None
        } else if t[1] == 'u' {
            if t.len() < 6 {
                None
            } else {
                match hex4(t[2], t[3], t[4], t[5]) {
                    Some(code) => if valid_scalar(code) {
                        match unescape(t.skip(6)) {
                            Some(p) => Some((seq![code as char] + p.0, p.1)),
                            None => None,
                        }
                    } else {
                        None
                    },
                    None => None,
                }
            }
        } else {
            match simple_unescape(t[1]) {
                Some(c) => match unescape(t.skip(2)) {
                    Some(p) => Some((seq![c] + p.0, p.1)),
                    None => None,
                },
                None => None,
            }
        }
    } else if (t[0] as u32) < 32 {
        None
    } else {
        match unescape(t.drop_first()) {
            Some(p) => Some((seq![t[0]] + p.0, p.1)),
            None => None,
        }
    }
}

/// Skipping blanks never lengthens the text.
proof fn lemma_skip_ws_len(t: Seq<char>)
    ensures
        skip_ws(t).len() <= t.len(),
    decreases t.len(),
{
    if t.len() > 0 && is_ws(t[0]) {
        lemma_skip_ws_len(t.drop_first());
    }
}

/// A successful string read consumes at least the closing quote.
proof fn lemma_unescape_len(t: Seq<char>)
    ensures
        unescape(t) matches Some(p) ==> p.1.len() < t.len(),
    decreases t.len(),
{
    if t.len() > 0 && t[0] != '"' {
        if t[0] == '\\' && t.len() >= 2 {
            if t[1] == 'u' {
                if t.len() >= 6 {
                    lemma_unescape_len(t.skip(6));
                }
            } else {
                lemma_unescape_len(t.skip(2));
            }
        } else if t[0] != '\\' {
            lemma_unescape_len(t.drop_first());
        }
    }
}

/// Reads the inner object's pairs: `t` starts right after the opening
/// brace, with leading blanks already skipped. Yields the entries and the
/// rest after the matching close brace.
pub open spec fn parse_pairs(t: Seq<char>) -> Option<(Model, Seq<char>)>
    decreases t.len(),
        via parse_pairs_dec
{
    if t.len() == 0 {
        None
    } else if t[0] == '}' {
        Some((Seq::empty(), t.drop_first()))
    } else if t[0] == '"' {
        match unescape(t.drop_first()) {
            Some(kp) => {
                let r2 = skip_ws(kp.1);
                if r2.len() > 0 && r2[0] == ':' {
                    let r3 = skip_ws(r2.drop_first());
                    if r3.len() > 0 && r3[0] == '"' {
                        match unescape(r3.drop_first()) {
                            Some(vp) => {
                                let r5 = skip_ws(vp.1);
                                if r5.len() > 0 && r5[0] == '}' {
                                    Some((seq![(kp.0, vp.0)], r5.drop_first()))
                                } else if r5.len() > 0 && r5[0] == ',' {
                                    match parse_pairs(skip_ws(r5.drop_first())) {
                                        Some(rp) => Some((seq![(kp.0, vp.0)] + rp.0, rp.1)),
                                        None => None,
                                    }
                                } else {
                                    None
                                }
                            },
                            None => None,
                        }
                    } else {
                        None
                    }
                } else {
                    None
                }
            },
            None => None,
        }
    } else {
        None
    }
}

#[via_fn]
proof fn parse_pairs_dec(t: Seq<char>) {
    if t.len() > 0 && t[0] != '}' && t[0] == '"' {
        lemma_unescape_len(t.drop_first());
        if let Some(kp) = unescape(t.drop_first()) {
            lemma_skip_ws_len(kp.1);
            let r2 = skip_ws(kp.1);
            if r2.len() > 0 && r2[0] == ':' {
                lemma_skip_ws_len(r2.drop_first());
                let r3 = skip_ws(r2.drop_first());
                if r3.len() > 0 && r3[0] == '"' {
                    lemma_unescape_len(r3.drop_first());
                    if let Some(vp) = unescape(r3.drop_first()) {
                        lemma_skip_ws_len(vp.1);
                        let r5 = skip_ws(vp.1);
                        if r5.len() > 0 && r5[0] == ',' {
                            lemma_skip_ws_len(r5.drop_first());
                        }
                    }
                }
            }
        }
    }
}

/// The key of the outer object's single field.
pub open spec fn projects_key() -> Seq<char> {
    seq!['p', 'r', 'o', 'j', 'e', 'c', 't', 's']
}

/// What a backing-store text denotes: the entries of a well-formed
/// document `{ "projects": { ... } }`, or the empty registry for any text
/// that does not parse (or whose aliases are not unique).
pub open spec fn parse_spec(t: Seq<char>) -> Model {
    let t1 = skip_ws(t);
    if t1.len() > 0 && t1[0] == '{' {
        let t2 = skip_ws(t1.drop_first());
        if t2.len() > 0 && t2[0] == '"' {
            match unescape(t2.drop_first()) {
                Some(kp) => if kp.0 == projects_key() {
                    let r2 = skip_ws(kp.1);
                    if r2.len() > 0 && r2[0] == ':' {
                        let r3 = skip_ws(r2.drop_first());
                        if r3.len() > 0 && r3[0] == '{' {
                            match parse_pairs(skip_ws(r3.drop_first())) {
                                Some(mp) => {
                                    let r5 = skip_ws(mp.1);
                                    if r5.len() > 0 && r5[0] == '}' && skip_ws(
                                        r5.drop_first(),
                                    ).len() == 0 && m_wf(mp.0) {
                                        mp.0
                                    } else {
                                        Seq::empty()
                                    }
                                },
                                None => Seq::empty(),
                            }
                        } else {
                            Seq::empty()
                        }
                    } else {
                        Seq::empty()
                    }
                } else {
                    Seq::empty()
                },
                None => Seq::empty(),
            }
        } else {
            Seq::empty()
        }
    } else {
        Seq::empty()
    }
}

/// Whatever the text, the parsed registry is well formed.
pub proof fn lemma_parse_wf(t: Seq<char>)
    ensures
        m_wf(parse_spec(t)),
{
    assert(m_wf(Seq::<(Seq<char>, Seq<char>)>::empty()));
}

/// Writes the hexadecimal digit for `n`.
fn hex_char(n: u32) -> (r: char)
    requires
        n < 16,
    ensures
        r == hex_digit(n as int),
{
    if n < 10 {
        (48 + n as u8) as char
    } else {
        (87 + n as u8) as char
    }
}

/// Appends `escape_char(c)` to `out`.
fn push_escaped(out: &mut String, c: char)
    ensures
        final(out)@ == old(out)@ + escape_char(c),
{
    if c == '"' {
        crate::push_char(out, '\\');
        crate::push_char(out, '"');
    } else if c == '\\' {
        crate::push_char(out, '\\');
        crate::push_char(out, '\\');
    } else if c == '\n' {
        crate::push_char(out, '\\');
        crate::push_char(out, 'n');
    } else if c == '\r' {
        crate::push_char(out, '\\');
        crate::push_char(out, 'r');
    } else if c == '\t' {
        crate::push_char(out, '\\');
        crate::push_char(out, 't');
    } else {
        let d = c as u32;
        if d == 8 {
            crate::push_char(out, '\\');
            crate::push_char(out, 'b');
        } else if d == 12 {
            crate::push_char(out, '\\');
            crate::push_char(out, 'f');
        } else if d < 32 {
            crate::push_char(out, '\\');
            crate::push_char(out, 'u');
            crate::push_char(out, '0');
            crate::push_char(out, '0');
            let h = hex_char(d / 16);
            crate::push_char(out, h);
            let l = hex_char(d % 16);
            crate::push_char(out, l);
        } else {
            crate::push_char(out, c);
        }
    }
    proof {
        assert(final(out)@ =~= old(out)@ + escape_char(c));
    }
}

/// Appends `quoted(s@)` to `out`.
fn push_quoted(out: &mut String, s: &str)
    ensures
        final(out)@ == old(out)@ + quoted(s@),
{
    let len = s.unicode_len();
    crate::push_char(out, '"');
    let mut i: usize = 0;
    while i < len
        invariant
            len == s@.len(),
            0 <= i <= len,
            out@ == old(out)@ + seq!['"'] + escape_str(s@.take(i as int)),
        decreases len - i,
    {
        let c = s.get_char(i);
        push_escaped(out, c);
        proof {
            lemma_escape_str_snoc(s@, i as int);
        }
        i += 1;
    }
    proof {
        assert(s@.take(len as int) =~= s@);
        assert(old(out)@ + seq!['"'] + escape_str(s@) + seq!['"'] =~= old(out)@ + quoted(s@));
    }
    crate::push_char(out, '"');
}

impl Config {
    /// Serialize the registry to the backing-store text: pretty-printed,
    /// deterministic, entries in insertion order.
    pub fn to_json(&self) -> (r: String)
        ensures
            r@ == to_json_spec(self.entries()),
    {
        let ghost m = self.entries();
        let mut out = String::new();
        crate::push_char(&mut out, '{');
        crate::push_char(&mut out, '\n');
        crate::push_char(&mut out, ' ');
        crate::push_char(&mut out, ' ');
        crate::push_char(&mut out, '"');
        crate::push_char(&mut out, 'p');
        crate::push_char(&mut out, 'r');
        crate::push_char(&mut out, 'o');
        crate::push_char(&mut out, 'j');
        crate::push_char(&mut out, 'e');
        crate::push_char(&mut out, 'c');
        crate::push_char(&mut out, 't');
        crate::push_char(&mut out, 's');
        crate::push_char(&mut out, '"');
        crate::push_char(&mut out, ':');
        crate::push_char(&mut out, ' ');
        proof {
            assert(out@ =~= header_text());
        }
        if self.projects.len() == 0 {
            crate::push_char(&mut out, '{');
            crate::push_char(&mut out, '}');
            crate::push_char(&mut out, '\n');
            crate::push_char(&mut out, '}');
            proof {
                assert(m.len() == 0);
                assert(out@ =~= to_json_spec(m));
            }
            return out;
        }
        crate::push_char(&mut out, '{');
        crate::push_char(&mut out, '\n');
        crate::push_char(&mut out, ' ');
        crate::push_char(&mut out, ' ');
        crate::push_char(&mut out, ' ');
        crate::push_char(&mut out, ' ');
        let ghost open_part = header_text() + seq!['{', '\n', ' ', ' ', ' ', ' '];
        proof {
            assert(out@ =~= open_part + entries_text(m.take(0)));
        }
        let mut i: usize = 0;
        while i < self.projects.len()
            invariant
                m == self.entries(),
                m.len() == self.projects@.len(),
                forall|j: int|
                    0 <= j < m.len() ==> m[j] == (self.projects@[j].0@, self.projects@[j].1@),
                open_part == header_text() + seq!['{', '\n', ' ', ' ', ' ', ' '],
                0 <= i <= self.projects.len(),
                out@ == open_part + entries_text(m.take(i as int)),
            decreases self.projects.len() - i,
        {
            if i > 0 {
                crate::push_char(&mut out, ',');
                crate::push_char(&mut out, '\n');
                crate::push_char(&mut out, ' ');
                crate::push_char(&mut out, ' ');
                crate::push_char(&mut out, ' ');
                crate::push_char(&mut out, ' ');
            }
            push_quoted(&mut out, self.projects[i].0.as_str());
            crate::push_char(&mut out, ':');
            crate::push_char(&mut out, ' ');
            push_quoted(&mut out, self.projects[i].1.as_str());
            proof {
                lemma_entries_text_snoc(m, i as int);
                if i == 0 {
                    assert(out@ =~= open_part + entries_text(m.take(i as int + 1)));
                } else {
                    assert(out@ =~= open_part + entries_text(m.take(i as int + 1)));
                }
            }
            i += 1;
        }
        crate::push_char(&mut out, '\n');
        crate::push_char(&mut out, ' ');
        crate::push_char(&mut out, ' ');
        crate::push_char(&mut out, '}');
        crate::push_char(&mut out, '\n');
        crate::push_char(&mut out, '}');
        proof {
            assert(m.take(m.len() as int) =~= m);
            assert(out@ =~= to_json_spec(m));
        }
        out
    }
}


/// Relies on `char::from_u32`: yields the character with this code point.
#[verifier::external_body]
fn char_from_code(code: u32) -> (r: char)
    requires
        code < 0xD800 || (0xE000 <= code && code < 0x110000),
    ensures
        r == (code as char),
{
    char::from_u32(code).unwrap()
}

/// The characters of `s`, collected into a vector.
fn str_chars(s: &str) -> (v: Vec<char>)
    ensures
        v@ == s@,
{
    let len = s.unicode_len();
    let mut v: Vec<char> = Vec::new();
    let mut i: usize = 0;
    while i < len
        invariant
            len == s@.len(),
            0 <= i <= len,
            v@ == s@.take(i as int),
        decreases len - i,
    {
        let c = s.get_char(i);
        v.push(c);
        proof {
            assert(v@ =~= s@.take(i as int + 1));
        }
        i += 1;
    }
    proof {
        assert(s@.take(len as int) =~= s@);
    }
    v
}

/// The position after the leading blanks from `i` on.
fn skip_ws_at(v: &Vec<char>, i: usize) -> (r: usize)
    requires
        i <= v@.len(),
    ensures
        i <= r <= v@.len(),
        v@.skip(r as int) == skip_ws(v@.skip(i as int)),
        r < v@.len() ==> !is_ws(v@[r as int]),
    decreases v@.len() - i,
{
    if i < v.len() {
        let c = v[i];
        if c == ' ' || c == '\n' || c == '\r' || c == '\t' {
            proof {
                assert(v@.skip(i as int).drop_first() =~= v@.skip(i as int + 1));
            }
            return skip_ws_at(v, i + 1);
        }
    }
    proof {
        assert(v@.skip(i as int) == skip_ws(v@.skip(i as int)));
    }
    i
}

/// The value of a hexadecimal digit character.
fn hex_val_at(c: char) -> (r: Option<u32>)
    ensures
        match r {
            Some(x) => x < 16 && hex_val(c) == Some(x as int),
            None => hex_val(c) is None,
        },
{
    if '0' <= c && c <= '9' {
        Some(c as u32 - 48)
    } else if 'a' <= c && c <= 'f' {
        Some(c as u32 - 87)
    } else if 'A' <= c && c <= 'F' {
        Some(c as u32 - 55)
    } else {
        None
    }
}

/// Reads a string body starting at `i` (right after the opening quote),
/// appending the unescaped content to `out`; yields the position after the
/// closing quote.
fn unescape_into(v: &Vec<char>, i: usize, out: &mut String) -> (r: Option<usize>)
    requires
        i <= v@.len(),
    ensures
        match r {
            Some(j) => i < j <= v@.len() && (unescape(v@.skip(i as int)) matches Some(p)
                && final(out)@ == old(out)@ + p.0 && v@.skip(j as int) == p.1),
            None => unescape(v@.skip(i as int)) is None,
        },
    decreases v@.len() - i,
{
    let ghost t = v@.skip(i as int);
    if i == v.len() {
        return None;
    }
    let c = v[i];
    proof {
        assert(t[0] == v@[i as int]);
        assert(t.drop_first() =~= v@.skip(i as int + 1));
    }
    if c == '"' {
        proof {
            assert(unescape(t) == Some((Seq::<char>::empty(), t.drop_first())));
            assert(old(out)@ + Seq::<char>::empty() =~= old(out)@);
        }
        return Some(i + 1);
    }
    if c == '\\' {
        if i + 1 == v.len() {
            return None;
        }
        let e = v[i + 1];
        proof {
            assert(t.len() >= 2);
            assert(t[1] == v@[i as int + 1]);
        }
        if e == 'u' {
            if v.len() - i < 6 {
                return None;
            }
            proof {
                assert(t[2] == v@[i as int + 2]);
                assert(t[3] == v@[i as int + 3]);
                assert(t[4] == v@[i as int + 4]);
                assert(t[5] == v@[i as int + 5]);
            }
            let h2 = hex_val_at(v[i + 2]);
            let h3 = hex_val_at(v[i + 3]);
            let h4 = hex_val_at(v[i + 4]);
            let h5 = hex_val_at(v[i + 5]);
            match (h2, h3, h4, h5) {
                (Some(a), Some(b), Some(cc), Some(d)) => {
                    let code: u32 = a * 4096 + b * 256 + cc * 16 + d;
                    if 0xD800 <= code && code < 0xE000 {
                        return None;
                    }
                    let ch = char_from_code(code);
                    crate::push_char(out, ch);
                    let ghost mid = out@;
                    proof {
                        assert(t.skip(6) =~= v@.skip(i as int + 6));
                    }
                    let rec = unescape_into(v, i + 6, out);
                    match rec {
                        Some(j) => {
                            proof {
                                let p = unescape(v@.skip(i as int + 6))->Some_0;
                                assert(unescape(t) == Some((seq![ch] + p.0, p.1)));
                                assert(out@ =~= old(out)@ + (seq![ch] + p.0));
                            }
                            return Some(j);
                        },
                        None => {
                            return None;
                        },
                    }
                },
                _ => {
                    return None;
                },
            }
        } else {
            let ch: char;
            if e == '"' {
                ch = '"';
            } else if e == '\\' {
                ch = '\\';
            } else if e == '/' {
                ch = '/';
            } else if e == 'n' {
                ch = '\n';
            } else if e == 'r' {
                ch = '\r';
            } else if e == 't' {
                ch = '\t';
            } else if e == 'b' {
                ch = 8u8 as char;
            } else if e == 'f' {
                ch = 12u8 as char;
            } else {
                proof {
                    assert(simple_unescape(t[1]) is None);
                }
                return None;
            }
            proof {
                assert(simple_unescape(t[1]) == Some(ch));
            }
            crate::push_char(out, ch);
            proof {
                assert(t.skip(2) =~= v@.skip(i as int + 2));
            }
            let rec = unescape_into(v, i + 2, out);
            match rec {
                Some(j) => {
                    proof {
                        let p = unescape(v@.skip(i as int + 2))->Some_0;
                        assert(unescape(t) == Some((seq![ch] + p.0, p.1)));
                        assert(out@ =~= old(out)@ + (seq![ch] + p.0));
                    }
                    return Some(j);
                },
                None => {
                    return None;
                },
            }
        }
    }
    if (c as u32) < 32 {
        return None;
    }
    crate::push_char(out, c);
    let rec = unescape_into(v, i + 1, out);
    match rec {
        Some(j) => {
            proof {
                let p = unescape(v@.skip(i as int + 1))->Some_0;
                assert(unescape(t) == Some((seq![c] + p.0, p.1)));
                assert(out@ =~= old(out)@ + (seq![c] + p.0));
            }
            Some(j)
        },
        None => None,
    }
}

/// Reads the pairs of the inner object from `i` on (blanks already
/// skipped); yields the entries and the position after the close brace.
fn parse_pairs_at(v: &Vec<char>, i: usize) -> (r: Option<(Vec<(String, String)>, usize)>)
    requires
        i <= v@.len(),
    ensures
        match r {
            Some(p) => p.1 <= v@.len() && (parse_pairs(v@.skip(i as int)) matches Some(sp)
                && sp.0 == vec_model(p.0@) && sp.1 == v@.skip(p.1 as int)),
            None => parse_pairs(v@.skip(i as int)) is None,
        },
    decreases v@.len() - i,
{
    let ghost t = v@.skip(i as int);
    if i == v.len() {
        return None;
    }
    let c = v[i];
    proof {
        assert(t[0] == v@[i as int]);
        assert(t.drop_first() =~= v@.skip(i as int + 1));
    }
    if c == '}' {
        let outv: Vec<(String, String)> = Vec::new();
        proof {
            assert(vec_model(outv@) =~= Seq::<(Seq<char>, Seq<char>)>::empty());
        }
        return Some((outv, i + 1));
    }
    if c != '"' {
        return None;
    }
    let mut kstr = String::new();
    let k_end = match unescape_into(v, i + 1, &mut kstr) {
        Some(j) => j,
        None => {
            return None;
        },
    };
    let ghost kp = unescape(v@.skip(i as int + 1))->Some_0;
    let r2pos = skip_ws_at(v, k_end);
    proof {
        assert(v@.skip(r2pos as int) == skip_ws(kp.1));
    }
    if r2pos == v.len() {
        return None;
    }
    if v[r2pos] != ':' {
        proof {
            assert(skip_ws(kp.1)[0] == v@[r2pos as int]);
        }
        return None;
    }
    proof {
        assert(skip_ws(kp.1)[0] == ':');
        assert(skip_ws(kp.1).drop_first() =~= v@.skip(r2pos as int + 1));
    }
    let r3pos = skip_ws_at(v, r2pos + 1);
    if r3pos == v.len() {
        return None;
    }
    if v[r3pos] != '"' {
        proof {
            assert(skip_ws(skip_ws(kp.1).drop_first())[0] == v@[r3pos as int]);
        }
        return None;
    }
    proof {
        assert(skip_ws(skip_ws(kp.1).drop_first())[0] == '"');
        assert(skip_ws(skip_ws(kp.1).drop_first()).drop_first() =~= v@.skip(r3pos as int + 1));
    }
    let mut vstr = String::new();
    let v_end = match unescape_into(v, r3pos + 1, &mut vstr) {
        Some(j) => j,
        None => {
            return None;
        },
    };
    let ghost vp = unescape(v@.skip(r3pos as int + 1))->Some_0;
    let r5pos = skip_ws_at(v, v_end);
    proof {
        assert(v@.skip(r5pos as int) == skip_ws(vp.1));
    }
    if r5pos == v.len() {
        return None;
    }
    let c5 = v[r5pos];
    proof {
        assert(skip_ws(vp.1)[0] == v@[r5pos as int]);
        assert(skip_ws(vp.1).drop_first() =~= v@.skip(r5pos as int + 1));
    }
    if c5 == '}' {
        let mut outv: Vec<(String, String)> = Vec::new();
        outv.push((kstr, vstr));
        proof {
            assert(vec_model(outv@) =~~= seq![(kp.0, vp.0)]);
        }
        return Some((outv, r5pos + 1));
    }
    if c5 != ',' {
        return None;
    }
    let nxt = skip_ws_at(v, r5pos + 1);
    proof {
        assert(v@.skip(nxt as int) == skip_ws(skip_ws(vp.1).drop_first()));
        lemma_unescape_len(v@.skip(i as int + 1));
        lemma_unescape_len(v@.skip(r3pos as int + 1));
    }
    match parse_pairs_at(v, nxt) {
        Some((mut restv, end)) => {
            proof {
                let rp = parse_pairs(v@.skip(nxt as int))->Some_0;
                assert(parse_pairs(t) == Some((seq![(kp.0, vp.0)] + rp.0, rp.1)));
            }
            let ghost before = restv@;
            restv.insert(0, (kstr, vstr));
            proof {
                assert(vec_model(restv@) =~~= seq![(kp.0, vp.0)] + vec_model(before));
            }
            Some((restv, end))
        },
        None => None,
    }
}

/// Whether two entries share an alias.
fn has_dup(entries: &Vec<(String, String)>) -> (r: bool)
    ensures
        r == !m_wf(vec_model(entries@)),
{
    let ghost m = vec_model(entries@);
    let mut i: usize = 1;
    while i < entries.len()
        invariant
            m == vec_model(entries@),
            m.len() == entries@.len(),
            forall|a: int, b: int| 0 <= a < b < i ==> m[a].0 != m[b].0,
            1 <= i,
        decreases entries.len() - i,
    {
        let mut j: usize = 0;
        while j < i
            invariant
                m == vec_model(entries@),
                m.len() == entries@.len(),
                i < entries@.len() || i <= entries@.len(),
                0 <= j <= i,
                i < m.len(),
                forall|a: int, b: int| 0 <= a < b < i ==> m[a].0 != m[b].0,
                forall|a: int| 0 <= a < j ==> m[a].0 != m[i as int].0,
            decreases i - j,
        {
            if entries[j].0 == entries[i].0 {
                proof {
                    assert(m[j as int].0 == m[i as int].0);
                    assert(!m_wf(m));
                }
                return true;
            }
            j += 1;
        }
        i += 1;
    }
    proof {
        assert(m_wf(m));
    }
    false
}

impl Config {
    /// Read a registry back from backing-store text. Text that does not
    /// parse — or that binds the same alias twice — yields the empty
    /// registry; corruption is never an error.
    pub fn from_json(text: &str) -> (r: Config)
        ensures
            r.wf(),
            r.entries() == parse_spec(text@),
    {
        let ghost t = text@;
        let v = str_chars(text);
        proof {
            assert(v@.skip(0) =~= t);
            assert(m_wf(Seq::<(Seq<char>, Seq<char>)>::empty()));
        }
        let t1pos = skip_ws_at(&v, 0);
        if t1pos == v.len() {
            return Config::new();
        }
        if v[t1pos] != '{' {
            proof {
                assert(skip_ws(t)[0] == v@[t1pos as int]);
            }
            return Config::new();
        }
        proof {
            assert(skip_ws(t)[0] == '{');
            assert(skip_ws(t).drop_first() =~= v@.skip(t1pos as int + 1));
        }
        let t2pos = skip_ws_at(&v, t1pos + 1);
        if t2pos == v.len() {
            return Config::new();
        }
        if v[t2pos] != '"' {
            proof {
                assert(skip_ws(skip_ws(t).drop_first())[0] == v@[t2pos as int]);
            }
            return Config::new();
        }
        proof {
            assert(skip_ws(skip_ws(t).drop_first())[0] == '"');
            assert(skip_ws(skip_ws(t).drop_first()).drop_first() =~= v@.skip(t2pos as int + 1));
        }
        let mut kstr = String::new();
        let k_end = match unescape_into(&v, t2pos + 1, &mut kstr) {
            Some(j) => j,
            None => {
                return Config::new();
            },
        };
        let ghost kp = unescape(v@.skip(t2pos as int + 1))->Some_0;
        let expected = String::from_str("projects");
        if !(kstr == expected) {
            proof {
                reveal_strlit("projects");
                assert("projects"@ =~= projects_key());
                assert(kp.0 != projects_key());
            }
            return Config::new();
        }
        proof {
            reveal_strlit("projects");
            assert("projects"@ =~= projects_key());
            assert(kp.0 == projects_key());
        }
        let r2pos = skip_ws_at(&v, k_end);
        if r2pos == v.len() {
            return Config::new();
        }
        if v[r2pos] != ':' {
            proof {
                assert(skip_ws(kp.1)[0] == v@[r2pos as int]);
            }
            return Config::new();
        }
        proof {
            assert(skip_ws(kp.1)[0] == ':');
            assert(skip_ws(kp.1).drop_first() =~= v@.skip(r2pos as int + 1));
        }
        let r3pos = skip_ws_at(&v, r2pos + 1);
        if r3pos == v.len() {
            return Config::new();
        }
        if v[r3pos] != '{' {
            proof {
                assert(skip_ws(skip_ws(kp.1).drop_first())[0] == v@[r3pos as int]);
            }
            return Config::new();
        }
        proof {
            assert(skip_ws(skip_ws(kp.1).drop_first())[0] == '{');
            assert(skip_ws(skip_ws(kp.1).drop_first()).drop_first() =~= v@.skip(
                r3pos as int + 1,
            ));
        }
        let ppos = skip_ws_at(&v, r3pos + 1);
        let (entries, pend) = match parse_pairs_at(&v, ppos) {
            Some(p) => p,
            None => {
                return Config::new();
            },
        };
        let ghost mp = parse_pairs(v@.skip(ppos as int))->Some_0;
        let r5pos = skip_ws_at(&v, pend);
        proof {
            assert(v@.skip(r5pos as int) == skip_ws(mp.1));
        }
        if r5pos == v.len() {
            return Config::new();
        }
        if v[r5pos] != '}' {
            proof {
                assert(skip_ws(mp.1)[0] == v@[r5pos as int]);
            }
            return Config::new();
        }
        proof {
            assert(skip_ws(mp.1)[0] == '}');
            assert(skip_ws(mp.1).drop_first() =~= v@.skip(r5pos as int + 1));
        }
        let endpos = skip_ws_at(&v, r5pos + 1);
        if endpos != v.len() {
            proof {
                assert(skip_ws(v@.skip(r5pos as int + 1)).len() == v@.len() - endpos);
            }
            return Config::new();
        }
        proof {
            assert(skip_ws(v@.skip(r5pos as int + 1)).len() == 0);
        }
        if has_dup(&entries) {
            return Config::new();
        }
        let cfg = Config { projects: entries };
        proof {
            assert(cfg.entries() == vec_model(entries@));
            assert(m_wf(mp.0));
            assert(parse_spec(t) == mp.0);
        }
        cfg
    }
}


/// Skipping blanks drops any all-blank prefix.
proof fn lemma_skip_ws_chop(t: Seq<char>, n: int)
    requires
        0 <= n <= t.len(),
        forall|j: int| 0 <= j < n ==> is_ws(#[trigger] t[j]),
    ensures
        skip_ws(t) == skip_ws(t.skip(n)),
    decreases n,
{
    if n == 0 {
        assert(t.skip(0) =~= t);
    } else {
        assert(is_ws(t[0]));
        assert(t.drop_first() =~= t.skip(1));
        lemma_skip_ws_chop(t.skip(1), n - 1);
        assert(t.skip(1).skip(n - 1) =~= t.skip(n));
    }
}

/// A string with no quote, backslash or control character is written as-is.
proof fn lemma_escape_plain(s: Seq<char>)
    requires
        forall|j: int|
            0 <= j < s.len() ==> (#[trigger] s[j]) != '"' && s[j] != '\\' && (s[j] as u32) >= 32,
    ensures
        escape_str(s) == s,
    decreases s.len(),
{
    if s.len() > 0 {
        assert(escape_char(s[0]) =~= seq![s[0]]);
        assert(forall|j: int|
            0 <= j < s.drop_first().len() ==> #[trigger] s.drop_first()[j] == s[j + 1]);
        lemma_escape_plain(s.drop_first());
        assert(escape_str(s) =~= s);
    }
}

/// The value of the digit `hex_digit` writes.
proof fn lemma_hex_digit_val(n: int)
    requires
        0 <= n < 16,
    ensures
        hex_val(hex_digit(n)) == Some(n),
{
    if n < 10 {
        assert(((48 + n) as char) as u32 == 48 + n);
    } else {
        assert(((87 + n) as char) as u32 == 87 + n);
    }
}

/// One escaped character at the front of a string body reads back as that
/// character.
#[verifier::rlimit(100)]
proof fn lemma_unescape_step(c: char, w: Seq<char>)
    requires
        unescape(w) is Some,
    ensures
        unescape(escape_char(c) + w) == Some(
            (seq![c] + unescape(w)->Some_0.0, unescape(w)->Some_0.1),
        ),
{
    let t = escape_char(c) + w;
    let p = unescape(w)->Some_0;
    if c == '"' || c == '\\' || c == '\n' || c == '\r' || c == '\t' || c as u32 == 8
        || c as u32 == 12 {
        let e = escape_char(c)[1];
        assert(escape_char(c).len() == 2);
        assert(t[0] == escape_char(c)[0]);
        assert(t[0] == '\\');
        assert(t.len() >= 2);
        assert(t[1] == e);
        if c == '"' {
            assert(simple_unescape(e) == Some(c));
        } else if c == '\\' {
            assert(simple_unescape(e) == Some(c));
        } else if c == '\n' {
            assert(simple_unescape(e) == Some(c));
        } else if c == '\r' {
            assert(simple_unescape(e) == Some(c));
        } else if c == '\t' {
            assert(simple_unescape(e) == Some(c));
        } else if c as u32 == 8 {
            assert(e == 'b');
            assert(simple_unescape('b') == Some(8 as char));
            assert((8int as char) as u32 == 8);
            assert(simple_unescape(e) == Some(c));
        } else {
            assert(e == 'f');
            assert(simple_unescape('f') == Some(12 as char));
            assert((12int as char) as u32 == 12);
            assert(simple_unescape(e) == Some(c));
        }
        assert(e != 'u');
        assert(t.skip(2) =~= w);
        assert(unescape(t) == Some((seq![c] + p.0, p.1)));
    } else if (c as u32) < 32 {
        let d = c as u32 as int;
        let h1 = hex_digit(d / 16);
        let h2 = hex_digit(d % 16);
        assert(escape_char(c) =~= seq!['\\', 'u', '0', '0', h1, h2]);
        assert(t[0] == '\\');
        assert(t.len() >= 6);
        assert(t[1] == 'u');
        assert(t[2] == '0');
        assert(t[3] == '0');
        assert(t[4] == h1);
        assert(t[5] == h2);
        lemma_hex_digit_val(d / 16);
        lemma_hex_digit_val(d % 16);
        assert(('0' as u32) == 48);
        assert(hex_val('0') == Some(0int));
        assert(hex4(t[2], t[3], t[4], t[5]) == Some(d));
        assert(valid_scalar(d));
        assert(t.skip(6) =~= w);
        assert((d as char) as u32 == d) by {
            assert(0 <= d < 32);
        }
        assert((d as char) == c);
        assert(unescape(t) == Some((seq![c] + p.0, p.1)));
    } else {
        assert(escape_char(c) =~= seq![c]);
        assert(t[0] == c);
        assert(c != '"' && c != '\\');
        assert(!((c as u32) < 32));
        assert(t.drop_first() =~= w);
        assert(unescape(t) == Some((seq![c] + p.0, p.1)));
    }
}

/// Reading back an escaped string recovers it exactly, leaving the rest.
proof fn lemma_unescape_escape(s: Seq<char>, rest: Seq<char>)
    ensures
        unescape(escape_str(s) + seq!['"'] + rest) == Some((s, rest)),
    decreases s.len(),
{
    let t = escape_str(s) + seq!['"'] + rest;
    if s.len() == 0 {
        assert(escape_str(s) =~= Seq::<char>::empty());
        assert(t =~= seq!['"'] + rest);
        assert(t[0] == '"');
        assert(t.drop_first() =~= rest);
        assert(s =~= Seq::<char>::empty());
    } else {
        let c = s[0];
        let s2 = s.drop_first();
        let u = escape_str(s2) + seq!['"'] + rest;
        lemma_unescape_escape(s2, rest);
        assert(escape_str(s) == escape_char(c) + escape_str(s2));
        assert(t =~= escape_char(c) + u);
        lemma_unescape_step(c, u);
        assert(unescape(t) == Some((seq![c] + s2, rest)));
        assert(seq![c] + s2 =~= s);
    }
}

/// Reading back written entries recovers them exactly, up to the close
/// brace that follows them.
#[verifier::rlimit(100)]
#[verifier::spinoff_prover]
proof fn lemma_parse_pairs_text(m: Model, rest: Seq<char>)
    requires
        m.len() > 0,
    ensures
        parse_pairs(entries_text(m) + seq!['\n', ' ', ' ', '}'] + rest) == Some((m, rest)),
    decreases m.len(),
{
    let k = m[0].0;
    let v = m[0].1;
    let tail4 = seq!['\n', ' ', ' ', '}'];
    let t = entries_text(m) + tail4 + rest;
    let after_v: Seq<char> = if m.len() == 1 {
        tail4 + rest
    } else {
        sep_text() + (entries_text(m.drop_first()) + tail4 + rest)
    };
    let y = quoted(v) + after_v;
    let xk = seq![':', ' '] + y;
    assert(t =~= seq!['"'] + (escape_str(k) + seq!['"'] + xk));
    assert(t[0] == '"');
    assert(t.drop_first() =~= escape_str(k) + seq!['"'] + xk);
    lemma_unescape_escape(k, xk);
    assert(xk[0] == ':');
    assert(!is_ws(':'));
    assert(skip_ws(xk) == xk);
    assert(xk.drop_first() =~= seq![' '] + y);
    assert((seq![' '] + y)[0] == ' ');
    assert((seq![' '] + y).drop_first() =~= y);
    assert(skip_ws(xk.drop_first()) == skip_ws(y));
    assert(y[0] == '"');
    assert(skip_ws(y) == y);
    assert(y.drop_first() =~= escape_str(v) + seq!['"'] + after_v);
    lemma_unescape_escape(v, after_v);
    if m.len() == 1 {
        assert(after_v[0] == '\n');
        assert(is_ws(after_v[1]) && is_ws(after_v[2]));
        assert(is_ws(after_v[0]));
        lemma_skip_ws_chop(after_v, 3);
        assert(after_v.skip(3) =~= seq!['}'] + rest);
        assert((seq!['}'] + rest)[0] == '}');
        assert(skip_ws(after_v.skip(3)) == after_v.skip(3));
        assert((seq!['}'] + rest).drop_first() =~= rest);
        assert(parse_pairs(t) == Some((seq![(k, v)], rest)));
        assert(seq![(k, v)] =~= m);
    } else {
        let m2 = m.drop_first();
        let z = entries_text(m2) + tail4 + rest;
        assert(after_v =~= sep_text() + z);
        assert(after_v[0] == ',');
        assert(!is_ws(','));
        assert(skip_ws(after_v) == after_v);
        assert(after_v.drop_first() =~= seq!['\n', ' ', ' ', ' ', ' '] + z);
        let wsz = seq!['\n', ' ', ' ', ' ', ' '] + z;
        assert(forall|j: int| 0 <= j < 5 ==> is_ws(#[trigger] wsz[j]));
        lemma_skip_ws_chop(wsz, 5);
        assert(wsz.skip(5) =~= z);
        assert(m2.len() > 0);
        assert(entry_text(m2[0].0, m2[0].1)[0] == '"');
        assert(entries_text(m2)[0] == '"');
        assert(z[0] == '"');
        assert(!is_ws('"'));
        assert(skip_ws(z) == z);
        lemma_parse_pairs_text(m2, rest);
        assert(parse_pairs(t) == Some((seq![(k, v)] + m2, rest)));
        assert(seq![(k, v)] + m2 =~= m);
    }
}

/// Saving and re-loading a well-formed registry recovers it exactly.
pub proof fn lemma_round_trip(m: Model)
    requires
        m_wf(m),
    ensures
        parse_spec(to_json_spec(m)) == m,
{
    let t = to_json_spec(m);
    let pk = projects_key();
    let inner: Seq<char> = if m.len() == 0 {
        seq!['{', '}', '\n', '}']
    } else {
        seq!['{', '\n', ' ', ' ', ' ', ' '] + entries_text(m) + seq![
            '\n',
            ' ',
            ' ',
            '}',
            '\n',
            '}',
        ]
    };
    let xk2 = seq![':', ' '] + inner;
    assert forall|j: int| 0 <= j < pk.len() implies (#[trigger] pk[j]) != '"' && pk[j] != '\\'
        && (pk[j] as u32) >= 32 by {
        if j == 0 {
            assert(pk[0] == 'p');
        } else if j == 1 {
            assert(pk[1] == 'r');
        } else if j == 2 {
            assert(pk[2] == 'o');
        } else if j == 3 {
            assert(pk[3] == 'j');
        } else if j == 4 {
            assert(pk[4] == 'e');
        } else if j == 5 {
            assert(pk[5] == 'c');
        } else if j == 6 {
            assert(pk[6] == 't');
        } else {
            assert(pk[7] == 's');
        }
    }
    lemma_escape_plain(pk);
    assert(t =~= seq!['{'] + (seq!['\n', ' ', ' '] + (seq!['"'] + (escape_str(pk) + seq!['"']
        + xk2))));
    assert(t[0] == '{');
    assert(!is_ws('{'));
    assert(skip_ws(t) == t);
    let t2w = seq!['\n', ' ', ' '] + (seq!['"'] + (escape_str(pk) + seq!['"'] + xk2));
    assert(t.drop_first() =~= t2w);
    assert(forall|j: int| 0 <= j < 3 ==> is_ws(#[trigger] t2w[j]));
    lemma_skip_ws_chop(t2w, 3);
    let t2 = seq!['"'] + (escape_str(pk) + seq!['"'] + xk2);
    assert(t2w.skip(3) =~= t2);
    assert(t2[0] == '"');
    assert(!is_ws('"'));
    assert(skip_ws(t2) == t2);
    assert(t2.drop_first() =~= escape_str(pk) + seq!['"'] + xk2);
    lemma_unescape_escape(pk, xk2);
    assert(xk2[0] == ':');
    assert(!is_ws(':'));
    assert(skip_ws(xk2) == xk2);
    assert(xk2.drop_first() =~= seq![' '] + inner);
    assert((seq![' '] + inner)[0] == ' ');
    assert((seq![' '] + inner).drop_first() =~= inner);
    assert(skip_ws(xk2.drop_first()) == skip_ws(inner));
    assert(inner[0] == '{');
    assert(!is_ws('{'));
    assert(skip_ws(inner) == inner);
    if m.len() == 0 {
        assert(inner.drop_first() =~= seq!['}', '\n', '}']);
        let pin = seq!['}', '\n', '}'];
        assert(pin[0] == '}');
        assert(!is_ws('}'));
        assert(skip_ws(pin) == pin);
        assert(pin.drop_first() =~= seq!['\n', '}']);
        assert(parse_pairs(pin) == Some((Seq::<(Seq<char>, Seq<char>)>::empty(), seq![
            '\n',
            '}',
        ])));
        let r4 = seq!['\n', '}'];
        assert(is_ws(r4[0]));
        lemma_skip_ws_chop(r4, 1);
        assert(r4.skip(1) =~= seq!['}']);
        assert(!is_ws(seq!['}'][0]));
        assert(skip_ws(seq!['}']) =~= seq!['}']);
        assert(skip_ws(r4) =~= seq!['}']);
        assert(seq!['}'].drop_first() =~= Seq::<char>::empty());
        assert(skip_ws(Seq::<char>::empty()).len() == 0);
        assert(parse_spec(t) =~= m);
    } else {
        let tail4 = seq!['\n', ' ', ' ', '}'];
        let rest2 = seq!['\n', '}'];
        let z = entries_text(m) + tail4 + rest2;
        assert(inner.drop_first() =~= seq!['\n', ' ', ' ', ' ', ' '] + z);
        let wsz = seq!['\n', ' ', ' ', ' ', ' '] + z;
        assert(forall|j: int| 0 <= j < 5 ==> is_ws(#[trigger] wsz[j]));
        lemma_skip_ws_chop(wsz, 5);
        assert(wsz.skip(5) =~= z);
        assert(entry_text(m[0].0, m[0].1)[0] == '"');
        assert(entries_text(m)[0] == '"');
        assert(z[0] == '"');
        assert(!is_ws('"'));
        assert(skip_ws(z) == z);
        lemma_parse_pairs_text(m, rest2);
        assert(parse_pairs(z) == Some((m, rest2)));
        assert(is_ws(rest2[0]));
        lemma_skip_ws_chop(rest2, 1);
        assert(rest2.skip(1) =~= seq!['}']);
        assert(!is_ws(seq!['}'][0]));
        assert(skip_ws(seq!['}']) =~= seq!['}']);
        assert(skip_ws(rest2) =~= seq!['}']);
        assert(seq!['}'].drop_first() =~= Seq::<char>::empty());
        assert(skip_ws(Seq::<char>::empty()).len() == 0);
        assert(parse_spec(t) =~= m);
    }
}

/// Saving what was loaded, twice over, writes the identical text both
/// times: serialization is idempotent over a load.
pub proof fn lemma_save_idempotent(t: Seq<char>)
    ensures
        to_json_spec(parse_spec(to_json_spec(parse_spec(t)))) == to_json_spec(parse_spec(t)),
{
    lemma_parse_wf(t);
    lemma_round_trip(parse_spec(t));
}

/// Binding a fresh alias, saving, and loading again yields a registry in
/// which that alias is bound to the given path.
pub proof fn lemma_insert_then_reload(m: Model, a: Seq<char>, p: Seq<char>)
    requires
        m_wf(m),
        !m_has(m, a),
    ensures
        parse_spec(to_json_spec(m_insert(m, a, p))) == m_insert(m, a, p),
        m_val(parse_spec(to_json_spec(m_insert(m, a, p))), a) == Some(p),
{
    lemma_insert_wf(m, a, p);
    lemma_round_trip(m_insert(m, a, p));
    lemma_insert_val(m, a, p, a);
}

} // verus!
