//! Canonical text encoding shared by the on-disk record format and the wire
//! protocol: JSON-style strings with the usual escapes, written without any
//! optional whitespace.  Encoding is total; decoding accepts exactly the
//! encoder's output, so every decoder in this crate comes with an
//! "accepts if and only if canonical" contract.

use vstd::prelude::*;
use vstd::utf8::char_u32_cast;
use vstd::utf8::encode_utf8;

verus! {

// ------------------------------------------------------------------
// Byte lengths.
//
// Offsets into segment files are byte offsets, while this crate models text
// as sequences of characters; `blen` is the UTF-8 byte length of a character
// sequence.
// ------------------------------------------------------------------

/// Number of bytes of the UTF-8 encoding of one character.
pub open spec fn char_blen(c: char) -> int {
    if (c as u32) < 0x80 {
        1
    } else if (c as u32) < 0x800 {
        2
    } else if (c as u32) < 0x10000 {
        3
    } else {
        4
    }
}

/// Number of bytes of the UTF-8 encoding of a character sequence.
pub open spec fn blen(s: Seq<char>) -> int
    decreases s.len(),
{
    if s.len() == 0 {
        0
    } else {
        char_blen(s[0]) + blen(s.drop_first())
    }
}

pub proof fn lemma_blen_bounds(s: Seq<char>)
    ensures
        s.len() <= blen(s) <= 4 * s.len(),
    decreases s.len(),
{
    if s.len() > 0 {
        lemma_blen_bounds(s.drop_first());
    }
}

pub proof fn lemma_blen_concat(a: Seq<char>, b: Seq<char>)
    ensures
        blen(a + b) == blen(a) + blen(b),
    decreases a.len(),
{
    if a.len() == 0 {
        assert(a + b =~= b);
    } else {
        lemma_blen_concat(a.drop_first(), b);
        assert((a + b).drop_first() =~= a.drop_first() + b);
        assert((a + b)[0] == a[0]);
    }
}

/// `blen` agrees with the UTF-8 encoding model of the standard library's
/// byte-oriented string length.
pub proof fn lemma_blen_is_utf8_len(s: Seq<char>)
    ensures
        blen(s) == encode_utf8(s).len(),
    decreases s.len(),
{
    if s.len() > 0 {
        lemma_blen_is_utf8_len(s.drop_first());
        vstd::utf8::char_is_scalar(s[0]);
    }
}

/// The byte length of a string, as used for segment offsets.
pub fn byte_len(s: &str) -> (r: usize)
    ensures
        r as int == blen(s@),
{
    proof {
        broadcast use vstd::slice::group_slice_axioms;

        lemma_blen_is_utf8_len(s@);
    }
    let b = s.as_bytes();
    b.len()
}

// ------------------------------------------------------------------
// String escaping.
// ------------------------------------------------------------------

/// Control characters must be escaped.
pub open spec fn is_ctl(c: char) -> bool {
    (c as u32) < 0x20
}

/// Control characters with a short, named escape.
pub open spec fn is_named(c: char) -> bool {
    c == '\u{08}' || c == '\u{09}' || c == '\u{0a}' || c == '\u{0c}' || c == '\u{0d}'
}

/// The letter of the short escape of a named control character.
pub open spec fn named_code(c: char) -> char {
    if c == '\u{08}' {
        'b'
    } else if c == '\u{09}' {
        't'
    } else if c == '\u{0a}' {
        'n'
    } else if c == '\u{0c}' {
        'f'
    } else {
        'r'
    }
}

/// Lower-case hexadecimal digit of a value below 16.
pub open spec fn hex_char(n: int) -> char {
    if n == 0 {
        '0'
    } else if n == 1 {
        '1'
    } else if n == 2 {
        '2'
    } else if n == 3 {
        '3'
    } else if n == 4 {
        '4'
    } else if n == 5 {
        '5'
    } else if n == 6 {
        '6'
    } else if n == 7 {
        '7'
    } else if n == 8 {
        '8'
    } else if n == 9 {
        '9'
    } else if n == 10 {
        'a'
    } else if n == 11 {
        'b'
    } else if n == 12 {
        'c'
    } else if n == 13 {
        'd'
    } else if n == 14 {
        'e'
    } else {
        'f'
    }
}

/// Characters that do not stand for themselves inside a quoted string.
pub open spec fn escaped(c: char) -> bool {
    c == '"' || c == '\\' || is_ctl(c)
}

/// The canonical escape of one character.
pub open spec fn esc_char(c: char) -> Seq<char> {
    if c == '"' {
        seq!['\\', '"']
    } else if c == '\\' {
        seq!['\\', '\\']
    } else if is_named(c) {
        seq!['\\', named_code(c)]
    } else if is_ctl(c) {
        seq![
            '\\',
            'u',
            '0',
            '0',
            hex_char((c as u32) as int / 16),
            hex_char((c as u32) as int % 16),
        ]
    } else {
        seq![c]
    }
}

/// The canonical escape of a character sequence.
pub open spec fn esc(s: Seq<char>) -> Seq<char>
    decreases s.len(),
{
    if s.len() == 0 {
        Seq::empty()
    } else {
        esc_char(s[0]) + esc(s.drop_first())
    }
}

pub proof fn lemma_esc_push(s: Seq<char>, c: char)
    ensures
        esc(s.push(c)) == esc(s) + esc_char(c),
    decreases s.len(),
{
    if s.len() == 0 {
        assert(esc(Seq::<char>::empty()) =~= Seq::<char>::empty());
        assert(s.push(c).drop_first() =~= Seq::<char>::empty());
        assert(s.push(c)[0] == c);
        assert(esc(s.push(c)) =~= esc_char(c));
        assert(esc(s) + esc_char(c) =~= esc_char(c));
    } else {
        lemma_esc_push(s.drop_first(), c);
        assert(s.push(c).drop_first() =~= s.drop_first().push(c));
        assert(s.push(c)[0] == s[0]);
        assert(esc_char(s[0]) + (esc(s.drop_first()) + esc_char(c)) =~= (esc_char(s[0]) + esc(
            s.drop_first(),
        )) + esc_char(c));
    }
}

/// Every character of an escape is printable: in particular neither a raw
/// newline nor a raw quote appears inside any `esc_char` image.
pub proof fn lemma_esc_char_shape(c: char)
    ensures
        1 <= esc_char(c).len() <= 6,
        esc_char(c)[0] == if escaped(c) {
            '\\'
        } else {
            c
        },
        !escaped(c) ==> esc_char(c) == seq![c],
        forall|i: int| 0 <= i < esc_char(c).len() ==> !is_ctl(#[trigger] esc_char(c)[i]),
        forall|i: int| 0 <= i < esc_char(c).len() ==> #[trigger] esc_char(c)[i] != '"' || (i == 1
            && c == '"'),
{
    if !escaped(c) {
        assert(esc_char(c) =~= seq![c]);
    }
}

/// No character of a fully escaped string is a raw newline.
pub proof fn lemma_esc_no_newline(s: Seq<char>)
    ensures
        forall|i: int| 0 <= i < esc(s).len() ==> #[trigger] esc(s)[i] != '\u{0a}',
    decreases s.len(),
{
    if s.len() > 0 {
        lemma_esc_char_shape(s[0]);
        lemma_esc_no_newline(s.drop_first());
        assert forall|i: int| 0 <= i < esc(s).len() implies #[trigger] esc(s)[i] != '\u{0a}' by {
            if i < esc_char(s[0]).len() {
                assert(esc(s)[i] == esc_char(s[0])[i]);
                assert(!is_ctl(esc_char(s[0])[i]));
            } else {
                assert(esc(s)[i] == esc(s.drop_first())[i - esc_char(s[0]).len()]);
            }
        }
    }
}

/// An escape is decoded from its leading characters: if two escapes start the
/// same stream of characters, they escape the same character.
pub proof fn lemma_esc_char_determined(x: char, y: char, p: Seq<char>, q: Seq<char>)
    requires
        esc_char(x) + p == esc_char(y) + q,
    ensures
        x == y,
        p == q,
{
    let lhs = esc_char(x) + p;
    lemma_esc_char_shape(x);
    lemma_esc_char_shape(y);
    assert(lhs[0] == esc_char(x)[0]);
    assert(lhs[0] == esc_char(y)[0]);
    if !escaped(x) && !escaped(y) {
        assert(x == y);
    } else if escaped(x) && escaped(y) {
        assert(esc_char(x).len() >= 2 && esc_char(y).len() >= 2);
        assert(lhs[1] == esc_char(x)[1]);
        assert(lhs[1] == esc_char(y)[1]);
        let cx = esc_char(x)[1];
        if x == '"' || x == '\\' || is_named(x) {
            assert(x == y);
        } else {
            // x is an unnamed control character: the escape is \u00hh.
            assert(cx == 'u');
            assert(y != '"' && y != '\\' && !is_named(y));
            assert(esc_char(x).len() == 6 && esc_char(y).len() == 6);
            assert(lhs[4] == esc_char(x)[4] && lhs[4] == esc_char(y)[4]);
            assert(lhs[5] == esc_char(x)[5] && lhs[5] == esc_char(y)[5]);
            let vx = (x as u32) as int;
            let vy = (y as u32) as int;
            assert(hex_char(vx / 16) == hex_char(vy / 16));
            assert(hex_char(vx % 16) == hex_char(vy % 16));
            assert(vx < 0x20 && vy < 0x20);
            assert(vx / 16 == vy / 16 && vx % 16 == vy % 16);
            assert(vx == vy);
            char_u32_cast(x, x as u32);
            char_u32_cast(y, y as u32);
            assert(x == y);
        }
    } else {
        // One side is escaped and the other is not: the leading characters
        // would have to be a backslash and a non-backslash at once.
        assert(escaped(x) ==> lhs[0] == '\\');
        assert(false);
    }
    assert(p =~= lhs.skip(esc_char(x).len() as int));
    assert(q =~= (esc_char(y) + q).skip(esc_char(y).len() as int));
}

/// How a quote-terminated escape aligns with an arbitrary already-decoded
/// prefix: either the prefix is the whole escaped text and the quote is next,
/// or a further whole escape follows.
pub proof fn lemma_esc_split(t: Seq<char>, p: Seq<char>, tail: Seq<char>, rest: Seq<char>)
    requires
        esc(t) + seq!['"'] + rest == esc(p) + tail,
    ensures
        (t == p && tail == seq!['"'] + rest) || (t.len() > p.len() && t.take(p.len() as int) == p
            && tail == esc(t.skip(p.len() as int)) + seq!['"'] + rest),
    decreases p.len(),
{
    if p.len() == 0 {
        assert(esc(p) =~= Seq::<char>::empty());
        assert(tail =~= esc(t) + seq!['"'] + rest);
        if t.len() == 0 {
            assert(esc(t) =~= Seq::<char>::empty());
            assert(t =~= p);
            assert(tail =~= seq!['"'] + rest);
        } else {
            assert(t.take(0) =~= p);
            assert(t.skip(0) =~= t);
        }
    } else {
        lemma_esc_char_shape(p[0]);
        if t.len() == 0 {
            assert(esc(t) =~= Seq::<char>::empty());
            assert((esc(t) + seq!['"'] + rest)[0] == '"');
            assert((esc(p) + tail)[0] == esc_char(p[0])[0]);
            assert(false);
        } else {
            lemma_esc_char_shape(t[0]);
            assert(esc(t) + seq!['"'] + rest =~= esc_char(t[0]) + (esc(t.drop_first())
                + seq!['"'] + rest));
            assert(esc(p) + tail =~= esc_char(p[0]) + (esc(p.drop_first()) + tail));
            lemma_esc_char_determined(
                t[0],
                p[0],
                esc(t.drop_first()) + seq!['"'] + rest,
                esc(p.drop_first()) + tail,
            );
            lemma_esc_split(t.drop_first(), p.drop_first(), tail, rest);
            if t.drop_first() == p.drop_first() && tail == seq!['"'] + rest {
                assert(t.len() == p.len());
                assert forall|i: int| 0 <= i < t.len() implies t[i] == p[i] by {
                    if i > 0 {
                        assert(t[i] == t.drop_first()[i - 1]);
                        assert(p[i] == p.drop_first()[i - 1]);
                    }
                }
                assert(t =~= p);
            } else {
                let k = p.len() as int;
                assert(t.drop_first().take(k - 1) == p.drop_first());
                assert forall|i: int| 0 <= i < k implies t.take(k)[i] == p[i] by {
                    if i > 0 {
                        assert(t.take(k)[i] == t.drop_first().take(k - 1)[i - 1]);
                        assert(p[i] == p.drop_first()[i - 1]);
                    }
                }
                assert(t.take(k) =~= p);
                assert(t.skip(k) =~= t.drop_first().skip(k - 1));
            }
        }
    }
}

/// `t`, escaped and closed by a quote, starts the text `w`.
pub open spec fn quoted_prefix(w: Seq<char>, t: Seq<char>) -> bool {
    esc(t).len() + 1 <= w.len() && w.take(esc(t).len() as int + 1) == esc(t) + seq!['"']
}

/// Splitting a known concatenation at the border.
pub proof fn lemma_concat_parts(a: Seq<char>, b: Seq<char>, w: Seq<char>)
    requires
        w == a + b,
    ensures
        w.len() == a.len() + b.len(),
        w.take(a.len() as int) == a,
        w.skip(a.len() as int) == b,
        w.subrange(0, a.len() as int) == a,
{
    assert(w.take(a.len() as int) =~= a);
    assert(w.skip(a.len() as int) =~= b);
    assert(w.subrange(0, a.len() as int) =~= a);
}

pub proof fn lemma_quoted_prefix_intro(t: Seq<char>, rest: Seq<char>, w: Seq<char>)
    requires
        w == esc(t) + seq!['"'] + rest,
    ensures
        quoted_prefix(w, t),
{
    assert(w.take(esc(t).len() as int + 1) =~= esc(t) + seq!['"']);
}

/// Relies on String::push: appends exactly one character.
#[verifier::external_body]
pub(crate) fn push_char(s: &mut String, c: char)
    ensures
        final(s)@ == old(s)@.push(c),
{
    s.push(c);
}

fn hex_digit(n: u32) -> (c: char)
    requires
        n < 16,
    ensures
        c == hex_char(n as int),
{
    if n == 0 {
        '0'
    } else if n == 1 {
        '1'
    } else if n == 2 {
        '2'
    } else if n == 3 {
        '3'
    } else if n == 4 {
        '4'
    } else if n == 5 {
        '5'
    } else if n == 6 {
        '6'
    } else if n == 7 {
        '7'
    } else if n == 8 {
        '8'
    } else if n == 9 {
        '9'
    } else if n == 10 {
        'a'
    } else if n == 11 {
        'b'
    } else if n == 12 {
        'c'
    } else if n == 13 {
        'd'
    } else if n == 14 {
        'e'
    } else {
        'f'
    }
}

fn unhex(c: char) -> (r: Option<u32>)
    ensures
        match r {
            Some(v) => v < 16 && c == hex_char(v as int),
            None => forall|v: int| 0 <= v < 16 ==> c != hex_char(v),
        },
{
    if c == '0' {
        Some(0)
    } else if c == '1' {
        Some(1)
    } else if c == '2' {
        Some(2)
    } else if c == '3' {
        Some(3)
    } else if c == '4' {
        Some(4)
    } else if c == '5' {
        Some(5)
    } else if c == '6' {
        Some(6)
    } else if c == '7' {
        Some(7)
    } else if c == '8' {
        Some(8)
    } else if c == '9' {
        Some(9)
    } else if c == 'a' {
        Some(10)
    } else if c == 'b' {
        Some(11)
    } else if c == 'c' {
        Some(12)
    } else if c == 'd' {
        Some(13)
    } else if c == 'e' {
        Some(14)
    } else if c == 'f' {
        Some(15)
    } else {
        None
    }
}

fn named_unescape(d: char) -> (r: Option<char>)
    ensures
        match r {
            Some(c) => esc_char(c) == seq!['\\', d],
            None => d != '"' && d != '\\' && d != 'b' && d != 't' && d != 'n' && d != 'f' && d
                != 'r',
        },
{
    if d == '"' {
        proof {
            assert(esc_char('"') =~= seq!['\\', '"']);
        }
        Some('"')
    } else if d == '\\' {
        proof {
            assert(esc_char('\\') =~= seq!['\\', '\\']);
        }
        Some('\\')
    } else if d == 'b' {
        proof {
            assert(esc_char('\u{08}') =~= seq!['\\', 'b']);
        }
        Some('\u{08}')
    } else if d == 't' {
        proof {
            assert(esc_char('\u{09}') =~= seq!['\\', 't']);
        }
        Some('\u{09}')
    } else if d == 'n' {
        proof {
            assert(esc_char('\u{0a}') =~= seq!['\\', 'n']);
        }
        Some('\u{0a}')
    } else if d == 'f' {
        proof {
            assert(esc_char('\u{0c}') =~= seq!['\\', 'f']);
        }
        Some('\u{0c}')
    } else if d == 'r' {
        proof {
            assert(esc_char('\u{0d}') =~= seq!['\\', 'r']);
        }
        Some('\u{0d}')
    } else {
        None
    }
}

/// Escape a string for inclusion between quotes.
pub fn escape(s: &str) -> (r: String)
    ensures
        r@ == esc(s@),
{
    let n = s.unicode_len();
    let mut r = String::new();
    let mut i: usize = 0;
    while i < n
        invariant
            i <= n,
            n == s@.len(),
            r@ == esc(s@.take(i as int)),
        decreases n - i,
    {
        let c = s.get_char(i);
        proof {
            lemma_esc_push(s@.take(i as int), c);
            assert(s@.take(i as int).push(c) =~= s@.take(i as int + 1));
        }
        if c == '"' {
            r.append("\\\"");
            proof {
                reveal_strlit("\\\"");
                assert("\\\""@ =~= esc_char('"'));
            }
        } else if c == '\\' {
            r.append("\\\\");
            proof {
                reveal_strlit("\\\\");
                assert("\\\\"@ =~= esc_char('\\'));
            }
        } else if c == '\u{08}' {
            r.append("\\b");
            proof {
                reveal_strlit("\\b");
                assert("\\b"@ =~= esc_char('\u{08}'));
            }
        } else if c == '\u{09}' {
            r.append("\\t");
            proof {
                reveal_strlit("\\t");
                assert("\\t"@ =~= esc_char('\u{09}'));
            }
        } else if c == '\u{0a}' {
            r.append("\\n");
            proof {
                reveal_strlit("\\n");
                assert("\\n"@ =~= esc_char('\u{0a}'));
            }
        } else if c == '\u{0c}' {
            r.append("\\f");
            proof {
                reveal_strlit("\\f");
                assert("\\f"@ =~= esc_char('\u{0c}'));
            }
        } else if c == '\u{0d}' {
            r.append("\\r");
            proof {
                reveal_strlit("\\r");
                assert("\\r"@ =~= esc_char('\u{0d}'));
            }
        } else if (c as u32) < 0x20 {
            r.append("\\u00");
            let v = c as u32;
            let hi = hex_digit(v / 16);
            let lo = hex_digit(v % 16);
            push_char(&mut r, hi);
            push_char(&mut r, lo);
            proof {
                reveal_strlit("\\u00");
                assert(r@ =~= esc(s@.take(i as int)) + esc_char(c));
            }
        } else {
            push_char(&mut r, c);
            proof {
                assert(esc_char(c) =~= seq![c]);
                assert(r@ =~= esc(s@.take(i as int)) + esc_char(c));
            }
        }
        i = i + 1;
    }
    proof {
        assert(s@.take(n as int) =~= s@);
    }
    r
}

/// Do the characters of `lit` stand at position `i` of `s`?
pub fn match_at(s: &str, i: usize, lit: &str) -> (b: bool)
    requires
        i <= s@.len(),
    ensures
        b == (i + lit@.len() <= s@.len() && s@.subrange(i as int, i as int + lit@.len() as int)
            == lit@),
{
    let n = s.unicode_len();
    let m = lit.unicode_len();
    if m > n - i {
        return false;
    }
    let mut j: usize = 0;
    while j < m
        invariant
            j <= m,
            i + m <= n,
            n == s@.len(),
            m == lit@.len(),
            forall|k: int| 0 <= k < j ==> s@[i + k] == lit@[k],
        decreases m - j,
    {
        if s.get_char(i + j) != lit.get_char(j) {
            proof {
                assert(s@.subrange(i as int, i as int + m as int)[j as int] == s@[i as int
                    + j as int]);
            }
            return false;
        }
        j = j + 1;
    }
    proof {
        assert(s@.subrange(i as int, i as int + m as int) =~= lit@);
    }
    true
}

/// Scan the text of a quoted string from position `start` up to its closing
/// quote, undoing the canonical escapes.  Succeeds exactly on text of the
/// form `esc(t)` followed by a quote, and then decodes it to `t`.
pub fn parse_string(s: &str, start: usize) -> (r: Option<(String, usize)>)
    requires
        start <= s@.len(),
    ensures
        match r {
            Some(pair) => start < pair.1 <= s@.len() && s@.subrange(start as int, pair.1 as int)
                == esc(pair.0@) + seq!['"'] && (forall|t2: Seq<char>|
                #[trigger] quoted_prefix(s@.skip(start as int), t2) ==> t2 == pair.0@),
            None => forall|t2: Seq<char>| !#[trigger] quoted_prefix(s@.skip(start as int), t2),
        },
{
    let n = s.unicode_len();
    let mut j: usize = start;
    let mut out = String::new();
    loop
        invariant
            start <= j <= n,
            n == s@.len(),
            esc(out@) == s@.subrange(start as int, j as int),
        decreases n - j,
    {
        let ghost w = s@.skip(start as int);
        let ghost tail = s@.skip(j as int);
        proof {
            assert(w =~= esc(out@) + tail);
        }
        if j >= n {
            proof {
                assert(tail.len() == 0);
                assert forall|t2: Seq<char>| !#[trigger] quoted_prefix(w, t2) by {
                    if quoted_prefix(w, t2) {
                        assert(w =~= w.take(esc(t2).len() as int + 1) + w.skip(esc(t2).len() as int + 1));
                        lemma_esc_split(t2, out@, tail, w.skip(esc(t2).len() as int + 1));
                        lemma_esc_char_shape(t2.skip(out@.len() as int)[0]);
                    }
                }
            }
            return None;
        }
        let c = s.get_char(j);
        proof {
            assert(tail[0] == c);
        }
        if c == '"' {
            proof {
                assert(s@.subrange(start as int, j as int + 1) =~= esc(out@) + seq!['"']);
                assert forall|t2: Seq<char>| #[trigger] quoted_prefix(w, t2) implies t2 == out@ by {
                    assert(w =~= w.take(esc(t2).len() as int + 1) + w.skip(esc(t2).len() as int + 1));
                    lemma_esc_split(t2, out@, tail, w.skip(esc(t2).len() as int + 1));
                    if t2 != out@ {
                        let u = t2.skip(out@.len() as int);
                        lemma_esc_char_shape(u[0]);
                        assert(tail[0] == esc_char(u[0])[0]);
                        assert(false);
                    }
                }
            }
            return Some((out, j + 1));
        } else if c == '\\' {
            if n - j < 2 {
                proof {
                    assert(tail.len() == 1);
                    assert forall|t2: Seq<char>| !#[trigger] quoted_prefix(w, t2) by {
                        if quoted_prefix(w, t2) {
                            assert(w =~= w.take(esc(t2).len() as int + 1) + w.skip(esc(t2).len() as int + 1));
                            lemma_esc_split(t2, out@, tail, w.skip(esc(t2).len() as int + 1));
                            let u = t2.skip(out@.len() as int);
                            lemma_esc_char_shape(u[0]);
                            assert(esc_char(u[0])[0] == tail[0]);
                            assert(escaped(u[0]));
                            assert(tail.len() >= esc_char(u[0]).len() + 1);
                            assert(false);
                        }
                    }
                }
                return None;
            }
            let d = s.get_char(j + 1);
            proof {
                assert(tail[1] == d);
            }
            if d == 'u' {
                let bad = if n - j < 6 {
                    true
                } else {
                    s.get_char(j + 2) != '0' || s.get_char(j + 3) != '0'
                };
                let mut decoded: Option<char> = None;
                if !bad {
                    let h4 = unhex(s.get_char(j + 4));
                    let h5 = unhex(s.get_char(j + 5));
                    match (h4, h5) {
                        (Some(hi), Some(lo)) => {
                            if hi < 2 {
                                let v: u32 = hi * 16 + lo;
                                if v != 8 && v != 9 && v != 10 && v != 12 && v != 13 {
                                    let c0 = (v as u8) as char;
                                    proof {
                                        assert(v < 32);
                                        assert((v as u8) as u32 == v) by (bit_vector)
                                            requires
                                                v < 32,
                                        ;
                                        assert(c0 as u32 == v);
                                        char_u32_cast(c0, v);
                                    }
                                    decoded = Some(c0);
                                }
                            }
                        }
                        _ => {}
                    }
                }
                match decoded {
                    Some(c0) => {
                        proof {
                            let v = c0 as u32;
                            assert(is_ctl(c0) && !is_named(c0) && c0 != '"' && c0 != '\\');
                            assert(esc_char(c0) == seq![
                                '\\',
                                'u',
                                '0',
                                '0',
                                hex_char((c0 as u32) as int / 16),
                                hex_char((c0 as u32) as int % 16),
                            ]);
                            lemma_esc_push(out@, c0);
                            assert(s@.subrange(start as int, j as int + 6) =~= s@.subrange(
                                start as int,
                                j as int,
                            ) + s@.subrange(j as int, j as int + 6));
                            assert(s@.subrange(j as int, j as int + 6) =~= esc_char(c0));
                        }
                        push_char(&mut out, c0);
                        j = j + 6;
                    }
                    None => {
                        proof {
                            assert forall|t2: Seq<char>| !#[trigger] quoted_prefix(w, t2) by {
                                if quoted_prefix(w, t2) {
                                    assert(w =~= w.take(esc(t2).len() as int + 1) + w.skip(
                                        esc(t2).len() as int + 1,
                                    ));
                                    lemma_esc_split(t2, out@, tail, w.skip(esc(t2).len() as int + 1));
                                    let u = t2.skip(out@.len() as int);
                                    lemma_esc_char_shape(u[0]);
                                    assert(esc_char(u[0])[0] == tail[0]);
                                    assert(escaped(u[0]));
                                    assert(esc_char(u[0])[1] == tail[1]);
                                    assert(u[0] != '"' && u[0] != '\\' && !is_named(u[0]));
                                    let uv = (u[0] as u32) as int;
                                    assert(esc_char(u[0]).len() == 6);
                                    assert(tail.len() >= 7);
                                    assert(tail[2] == '0' && tail[3] == '0');
                                    assert(tail[4] == hex_char(uv / 16));
                                    assert(tail[5] == hex_char(uv % 16));
                                    assert(uv < 32);
                                    assert(0 <= uv / 16 < 2);
                                    assert(0 <= uv % 16 < 16);
                                    assert(uv != 8 && uv != 9 && uv != 10 && uv != 12 && uv
                                        != 13) by {
                                        char_u32_cast(u[0], u[0] as u32);
                                        assert('\u{08}' as u32 == 8);
                                        assert('\u{09}' as u32 == 9);
                                        assert('\u{0a}' as u32 == 10);
                                        assert('\u{0c}' as u32 == 12);
                                        assert('\u{0d}' as u32 == 13);
                                    }
                                    assert(false);
                                }
                            }
                        }
                        return None;
                    }
                }
            } else {
                match named_unescape(d) {
                    Some(c0) => {
                        proof {
                            lemma_esc_push(out@, c0);
                            assert(s@.subrange(start as int, j as int + 2) =~= s@.subrange(
                                start as int,
                                j as int,
                            ) + s@.subrange(j as int, j as int + 2));
                            assert(s@.subrange(j as int, j as int + 2) =~= seq!['\\', d]);
                        }
                        push_char(&mut out, c0);
                        j = j + 2;
                    }
                    None => {
                        proof {
                            assert forall|t2: Seq<char>| !#[trigger] quoted_prefix(w, t2) by {
                                if quoted_prefix(w, t2) {
                                    assert(w =~= w.take(esc(t2).len() as int + 1) + w.skip(
                                        esc(t2).len() as int + 1,
                                    ));
                                    lemma_esc_split(t2, out@, tail, w.skip(esc(t2).len() as int + 1));
                                    let u = t2.skip(out@.len() as int);
                                    lemma_esc_char_shape(u[0]);
                                    assert(esc_char(u[0])[0] == tail[0]);
                                    assert(escaped(u[0]));
                                    assert(esc_char(u[0])[1] == tail[1]);
                                    assert(false);
                                }
                            }
                        }
                        return None;
                    }
                }
            }
        } else if (c as u32) < 0x20 {
            proof {
                assert forall|t2: Seq<char>| !#[trigger] quoted_prefix(w, t2) by {
                    if quoted_prefix(w, t2) {
                        assert(w =~= w.take(esc(t2).len() as int + 1) + w.skip(esc(t2).len() as int + 1));
                        lemma_esc_split(t2, out@, tail, w.skip(esc(t2).len() as int + 1));
                        let u = t2.skip(out@.len() as int);
                        lemma_esc_char_shape(u[0]);
                        assert(esc_char(u[0])[0] == tail[0]);
                        if escaped(u[0]) {
                            assert(tail[0] == '\\');
                            assert(('\\' as u32) == 92);
                            assert(false);
                        } else {
                            assert(tail[0] == u[0]);
                            assert(!is_ctl(u[0]));
                            assert(false);
                        }
                    }
                }
            }
            return None;
        } else {
            proof {
                lemma_esc_push(out@, c);
                assert(esc_char(c) =~= seq![c]);
                assert(s@.subrange(start as int, j as int + 1) =~= s@.subrange(
                    start as int,
                    j as int,
                ) + seq![c]);
            }
            push_char(&mut out, c);
            j = j + 1;
        }
    }
}

/// Parse an escaped string at `p`, its closing quote, then the literal
/// `close`, which must end the text.  Succeeds exactly on a tail of the
/// form `esc(t)`, quote, `close`.
pub fn parse_string_to_end(s: &str, p: usize, close: &str) -> (r: Option<String>)
    requires
        p <= s@.len(),
    ensures
        match r {
            Some(t) => s@.skip(p as int) == esc(t@) + seq!['"'] + close@ && (forall|t2: Seq<char>|
                s@.skip(p as int) == esc(t2) + seq!['"'] + close@ ==> t2 == t@),
            None => forall|t2: Seq<char>| s@.skip(p as int) != esc(t2) + seq!['"'] + close@,
        },
{
    let n = s.unicode_len();
    match parse_string(s, p) {
        Some((t, end)) => {
            let m = close.unicode_len();
            let fits = match_at(s, end, close);
            if fits && end + m == n {
                proof {
                    assert(s@.skip(p as int) =~= s@.subrange(p as int, end as int) + s@.subrange(
                        end as int,
                        n as int,
                    ));
                    assert(s@.subrange(end as int, n as int) == close@);
                    assert(s@.skip(p as int) =~= (esc(t@) + seq!['"']) + close@);
                    assert(s@.skip(p as int) =~= esc(t@) + seq!['"'] + close@);
                    assert forall|t2: Seq<char>|
                        s@.skip(p as int) == esc(t2) + seq!['"'] + close@ implies t2 == t@ by {
                        lemma_quoted_prefix_intro(t2, close@, s@.skip(p as int));
                    }
                }
                Some(t)
            } else {
                proof {
                    assert forall|t2: Seq<char>|
                        s@.skip(p as int) != esc(t2) + seq!['"'] + close@ by {
                        if s@.skip(p as int) == esc(t2) + seq!['"'] + close@ {
                            lemma_quoted_prefix_intro(t2, close@, s@.skip(p as int));
                            assert(t2 == t@);
                            assert(end - p == esc(t@).len() + 1) by {
                                assert(s@.subrange(p as int, end as int) == esc(t@)
                                    + seq!['"']);
                            }
                            assert(s@.skip(end as int) =~= close@) by {
                                assert(s@.skip(p as int) =~= s@.subrange(p as int, end as int)
                                    + s@.skip(end as int));
                                lemma_concat_parts(
                                    esc(t2) + seq!['"'],
                                    close@,
                                    s@.skip(p as int),
                                );
                            }
                            assert(s@.subrange(end as int, s@.len() as int) == close@);
                            assert(end + close@.len() == s@.len());
                            assert(s@.subrange(end as int, end as int + close@.len() as int)
                                == close@);
                            assert(false);
                        }
                    }
                }
                None
            }
        }
        None => {
            proof {
                assert forall|t2: Seq<char>| s@.skip(p as int) != esc(t2) + seq!['"'] + close@ by {
                    if s@.skip(p as int) == esc(t2) + seq!['"'] + close@ {
                        lemma_quoted_prefix_intro(t2, close@, s@.skip(p as int));
                    }
                }
            }
            None
        }
    }
}

} // verus!
