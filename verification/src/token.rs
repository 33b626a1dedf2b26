//! Session tokens.
//!
//! Format: `CLOSURE-XXXX-XXXX-XXXX` over an unambiguous alphabet of 32
//! characters (the digits 2 to 9 and the capital letters except `I` and `O`).

use vstd::prelude::*;
use crate::rng::{Draw, SeededRng, after, drawn_below};
use crate::text::{chars_of, decimal, push_char, push_decimal, string_of};

verus! {

/// Number of groups in a token body.
pub const GROUPS: usize = 3;
/// Characters per group.
pub const GROUP_LEN: usize = 4;

/// Whether `c` is white space in the sense of Unicode `White_Space`, which
/// is what `char::is_whitespace` and `str::trim` go by.
pub open spec fn is_white(c: char) -> bool {
    ('\u{9}' <= c <= '\u{d}') || c == ' ' || c == '\u{85}' || c == '\u{a0}' || c == '\u{1680}'
        || ('\u{2000}' <= c <= '\u{200a}') || c == '\u{2028}' || c == '\u{2029}' || c
        == '\u{202f}' || c == '\u{205f}' || c == '\u{3000}'
}

/// `s` without its leading white space.
pub open spec fn trim_start(s: Seq<char>) -> Seq<char>
    decreases s.len(),
{
    if s.len() > 0 && is_white(s[0]) {
        trim_start(s.drop_first())
    } else {
        s
    }
}

/// `s` without its trailing white space.
pub open spec fn trim_end(s: Seq<char>) -> Seq<char>
    decreases s.len(),
{
    if s.len() > 0 && is_white(s.last()) {
        trim_end(s.drop_last())
    } else {
        s
    }
}

/// ASCII upper case of one character; every other character is unchanged.
pub open spec fn upper(c: char) -> char {
    if 'a' <= c <= 'z' {
        ((c as u32) - 32) as char
    } else {
        c
    }
}

/// Whether `c` is an ASCII letter or digit.
pub open spec fn is_alnum(c: char) -> bool {
    ('0' <= c <= '9') || ('A' <= c <= 'Z') || ('a' <= c <= 'z')
}

/// Whether `c` is in the token alphabet.
pub open spec fn in_alphabet(c: char) -> bool {
    ('2' <= c <= '9') || ('A' <= c <= 'Z' && c != 'I' && c != 'O')
}

/// The token prefix.
pub open spec fn prefix() -> Seq<char> {
    seq!['C', 'L', 'O', 'S', 'U', 'R', 'E']
}

/// The ASCII letters and digits of `s`, in order.
pub open spec fn keep_alnum(s: Seq<char>) -> Seq<char>
    decreases s.len(),
{
    if s.len() == 0 {
        s
    } else if is_alnum(s.last()) {
        keep_alnum(s.drop_last()).push(s.last())
    } else {
        keep_alnum(s.drop_last())
    }
}

/// What remains of `raw` once it is trimmed, upper-cased, stripped of one
/// leading `CLOSURE` and of everything but letters and digits.
pub open spec fn cleaned(raw: Seq<char>) -> Seq<char> {
    let u = trim_end(trim_start(raw)).map_values(|c: char| upper(c));
    let body = if u.len() >= 7 && u.take(7) == prefix() {
        u.skip(7)
    } else {
        u
    };
    keep_alnum(body)
}

/// The canonical form of a 12-character body.
pub open spec fn canonical(c: Seq<char>) -> Seq<char> {
    prefix().push('-') + c.subrange(0, 4) + seq!['-'] + c.subrange(4, 8) + seq!['-'] + c.subrange(
        8,
        12,
    )
}

/// Whether `c` is a valid token body: twelve characters of the alphabet.
pub open spec fn valid_body(c: Seq<char>) -> bool {
    c.len() == 12 && forall|i: int| 0 <= i < 12 ==> #[trigger] in_alphabet(c[i])
}

/// The token `raw` parses to, if any.
pub open spec fn parses_to(raw: Seq<char>) -> Option<Seq<char>> {
    let c = cleaned(raw);
    if valid_body(c) {
        Some(canonical(c))
    } else {
        None
    }
}

/// The first character of `c` outside the alphabet, by index.
pub open spec fn first_stray(c: Seq<char>, i: int) -> bool {
    0 <= i < c.len() && !in_alphabet(c[i]) && forall|j: int| 0 <= j < i ==> #[trigger] in_alphabet(c[j])
}

/// The message for a body of the wrong length.
pub open spec fn length_message(n: nat) -> Seq<char> {
    "expected 12 characters after the prefix, got "@ + decimal(n)
}

/// The message for a character outside the alphabet.
pub open spec fn stray_message(c: char) -> Seq<char> {
    "character '"@.push(c) + "' is not in the token alphabet"@
}

/// A session token, always in canonical form.
#[derive(Debug, Clone, Hash)]
pub struct SessionToken(String);

impl View for SessionToken {
    type V = Seq<char>;

    closed spec fn view(&self) -> Seq<char> {
        self.0@
    }
}

impl PartialEq for SessionToken {
    fn eq(&self, other: &Self) -> (r: bool) {
        self.0 == other.0
    }
}

impl Eq for SessionToken {
}

impl vstd::std_specs::cmp::PartialEqSpecImpl for SessionToken {
    open spec fn obeys_eq_spec() -> bool {
        true
    }

    open spec fn eq_spec(&self, other: &Self) -> bool {
        self@ == other@
    }
}

/// The alphabet character at index `i < 32`.
pub open spec fn alphabet_at(i: nat) -> char {
    if i < 8 {
        ((('2' as u32) + i) as u32) as char
    } else if i < 16 {
        ((('A' as u32) + (i - 8)) as u32) as char
    } else if i == 16 {
        'J'
    } else if i < 21 {
        ((('K' as u32) + (i - 17)) as u32) as char
    } else {
        ((('P' as u32) + (i - 21)) as u32) as char
    }
}

fn alphabet_char(i: usize) -> (c: char)
    requires
        i < 32,
    ensures
        c == alphabet_at(i as nat),
        in_alphabet(c),
{
    let b: u8 = if i < 8 {
        50 + (i as u8)
    } else if i < 16 {
        65 + (i as u8 - 8)
    } else if i == 16 {
        74
    } else if i < 21 {
        75 + (i as u8 - 17)
    } else {
        80 + (i as u8 - 21)
    };
    let c = b as char;
    assert(c == alphabet_at(i as nat));
    c
}

fn is_white_char(c: char) -> (b: bool)
    ensures
        b == is_white(c),
{
    ('\u{9}' <= c && c <= '\u{d}') || c == ' ' || c == '\u{85}' || c == '\u{a0}' || c
        == '\u{1680}' || ('\u{2000}' <= c && c <= '\u{200a}') || c == '\u{2028}' || c
        == '\u{2029}' || c == '\u{202f}' || c == '\u{205f}' || c == '\u{3000}'
}

fn upper_char(c: char) -> (u: char)
    ensures
        u == upper(c),
{
    if 'a' <= c && c <= 'z' {
        let b = (c as u8) - 32;
        let u = b as char;
        assert(u == upper(c));
        u
    } else {
        c
    }
}

fn is_alnum_char(c: char) -> (b: bool)
    ensures
        b == is_alnum(c),
{
    ('0' <= c && c <= '9') || ('A' <= c && c <= 'Z') || ('a' <= c && c <= 'z')
}

fn in_alphabet_char(c: char) -> (b: bool)
    ensures
        b == in_alphabet(c),
{
    ('2' <= c && c <= '9') || ('A' <= c && c <= 'Z' && c != 'I' && c != 'O')
}

/// The index of the first character of `s` that is not white, or `s.len()`.
fn leading_white(s: &Vec<char>) -> (lo: usize)
    ensures
        lo <= s@.len(),
        trim_start(s@) == s@.skip(lo as int),
{
    let mut lo: usize = 0;
    assert(s@.skip(0) =~= s@);
    while lo < s.len() && is_white_char(s[lo])
        invariant
            lo <= s@.len(),
            trim_start(s@) == trim_start(s@.skip(lo as int)),
        decreases s@.len() - lo,
    {
        assert(s@.skip(lo as int).drop_first() =~= s@.skip(lo + 1));
        lo += 1;
    }
    lo
}

/// The end of `s[lo..]` once trailing white space is removed.
fn trailing_white(s: &Vec<char>, lo: usize) -> (hi: usize)
    requires
        lo <= s@.len(),
    ensures
        lo <= hi <= s@.len(),
        trim_end(s@.skip(lo as int)) == s@.subrange(lo as int, hi as int),
{
    let mut hi: usize = s.len();
    assert(s@.skip(lo as int) =~= s@.subrange(lo as int, hi as int));
    while hi > lo && is_white_char(s[hi - 1])
        invariant
            lo <= hi <= s@.len(),
            trim_end(s@.skip(lo as int)) == trim_end(s@.subrange(lo as int, hi as int)),
        decreases hi,
    {
        assert(s@.subrange(lo as int, hi as int).drop_last() =~= s@.subrange(
            lo as int,
            hi - 1,
        ));
        hi -= 1;
    }
    hi
}

/// `raw` without its leading and trailing white space.
pub fn trim(raw: &str) -> (t: String)
    ensures
        t@ == trim_end(trim_start(raw@)),
{
    let chars = chars_of(raw);
    let lo = leading_white(&chars);
    let hi = trailing_white(&chars, lo);
    let mut kept: Vec<char> = Vec::new();
    let mut i: usize = lo;
    while i < hi
        invariant
            lo <= i <= hi <= chars@.len(),
            kept@ == chars@.subrange(lo as int, i as int),
        decreases hi - i,
    {
        kept.push(chars[i]);
        i += 1;
        assert(kept@ =~= chars@.subrange(lo as int, i as int));
    }
    string_of(kept.as_slice())
}

/// A generator in state `st` after `k` more draws below 32.
pub open spec fn after_draws(st: (u64, Seq<Draw>), k: nat) -> (u64, Seq<Draw>)
    decreases k,
{
    if k == 0 {
        st
    } else {
        after(after_draws(st, (k - 1) as nat), Draw::Below(32))
    }
}

/// The first `k` characters of the body a generator in state `st` mints:
/// the `i`-th is the alphabet character at the `i`-th draw below 32.
pub open spec fn body_drawn(st: (u64, Seq<Draw>), k: nat) -> Seq<char> {
    Seq::new(k, |i: int| alphabet_at(drawn_below(after_draws(st, i as nat).0, after_draws(st, i as nat).1, 32) as nat))
}

impl SessionToken {
    /// Mint a token from a seeded source of randomness: twelve draws below
    /// 32, each read as a character of the alphabet.
    pub fn generate(rng: &mut SeededRng) -> (t: Self)
        ensures
            valid_body(body_drawn(old(rng)@, 12)),
            t@ == canonical(body_drawn(old(rng)@, 12)),
            final(rng)@ == after_draws(old(rng)@, 12),
    {
        let ghost st0 = rng@;
        let mut body: Vec<char> = Vec::new();
        let mut k: usize = 0;
        while k < GROUPS * GROUP_LEN
            invariant
                k <= 12,
                body@.len() == k,
                forall|i: int| 0 <= i < k ==> #[trigger] in_alphabet(body@[i]),
                rng@ == after_draws(st0, k as nat),
                body@ == body_drawn(st0, k as nat),
            decreases 12 - k,
        {
            let i = rng.random_below(32);
            body.push(alphabet_char(i));
            k += 1;
            assert(body@ =~= body_drawn(st0, k as nat));
        }
        SessionToken(assemble(&body))
    }

    /// Parse a token, accepting lower case, surrounding white space, a
    /// missing prefix, and any separators that are not letters or digits.
    pub fn parse(raw: &str) -> (r: Result<Self, crate::Error>)
        ensures
            match r {
                Ok(t) => parses_to(raw@) == Some(t@),
                Err(crate::Error::Token(m)) => parses_to(raw@) is None && (if cleaned(raw@).len()
                    != 12 {
                    m@ == length_message(cleaned(raw@).len())
                } else {
                    exists|i: int| first_stray(cleaned(raw@), i) && m@ == stray_message(
                        cleaned(raw@)[i],
                    )
                }),
                Err(_) => false,
            },
    {
        let chars = chars_of(raw);
        let lo = leading_white(&chars);
        let hi = trailing_white(&chars, lo);
        let ghost trimmed = chars@.subrange(lo as int, hi as int);
        // Upper-case the trimmed text.
        let mut u: Vec<char> = Vec::new();
        let mut i: usize = lo;
        while i < hi
            invariant
                lo <= i <= hi <= chars@.len(),
                u@ == chars@.subrange(lo as int, i as int).map_values(|c: char| upper(c)),
            decreases hi - i,
        {
            u.push(upper_char(chars[i]));
            i += 1;
            assert(u@ =~= chars@.subrange(lo as int, i as int).map_values(|c: char| upper(c)));
        }
        // Strip one leading prefix.
        let has_prefix = u.len() >= 7 && u[0] == 'C' && u[1] == 'L' && u[2] == 'O' && u[3] == 'S'
            && u[4] == 'U' && u[5] == 'R' && u[6] == 'E';
        let start: usize = if has_prefix { 7 } else { 0 };
        proof {
            if u@.len() >= 7 {
                if has_prefix {
                    assert(u@.take(7) =~= prefix());
                } else {
                    assert(u@.take(7) != prefix()) by {
                        if u@.take(7) == prefix() {
                            assert(u@.take(7)[0] == 'C');
                            assert(u@.take(7)[1] == 'L');
                            assert(u@.take(7)[2] == 'O');
                            assert(u@.take(7)[3] == 'S');
                            assert(u@.take(7)[4] == 'U');
                            assert(u@.take(7)[5] == 'R');
                            assert(u@.take(7)[6] == 'E');
                        }
                    }
                }
            }
        }
        let ghost body = u@.skip(start as int);
        // Keep letters and digits.
        let mut c: Vec<char> = Vec::new();
        let mut j: usize = start;
        while j < u.len()
            invariant
                start <= j <= u@.len(),
                c@ == keep_alnum(u@.subrange(start as int, j as int)),
            decreases u@.len() - j,
        {
            assert(u@.subrange(start as int, j + 1).drop_last() =~= u@.subrange(
                start as int,
                j as int,
            ));
            if is_alnum_char(u[j]) {
                c.push(u[j]);
            }
            j += 1;
        }
        proof {
            assert(u@.subrange(start as int, u@.len() as int) =~= body);
            assert(trim_end(trim_start(raw@)) == trimmed);
            assert(u@ == trimmed.map_values(|c: char| upper(c)));
            assert(u@.skip(0) =~= u@);
            let b2 = if u@.len() >= 7 && u@.take(7) == prefix() { u@.skip(7) } else { u@ };
            assert(b2 == body);
            assert(c@ == keep_alnum(body));
            assert(c@ == cleaned(raw@));
        }
        if c.len() != GROUPS * GROUP_LEN {
            let mut m = String::from_str("expected 12 characters after the prefix, got ");
            push_decimal(&mut m, c.len() as u64);
            return Err(crate::Error::Token(m));
        }
        let mut k: usize = 0;
        while k < c.len()
            invariant
                k <= c@.len(),
                c@.len() == 12,
                c@ == cleaned(raw@),
                forall|i: int| 0 <= i < k ==> #[trigger] in_alphabet(c@[i]),
            decreases c@.len() - k,
        {
            if !in_alphabet_char(c[k]) {
                let mut m = String::from_str("character '");
                push_char(&mut m, c[k]);
                m.append("' is not in the token alphabet");
                assert(first_stray(c@, k as int));
                assert(!valid_body(c@));
                assert(m@ == stray_message(c@[k as int]));
                assert(parses_to(raw@) is None);
                assert(exists|i: int| first_stray(cleaned(raw@), i) && m@ == stray_message(cleaned(raw@)[i]));
                return Err(crate::Error::Token(m));
            }
            k += 1;
        }
        Ok(SessionToken(assemble(&c)))
    }

    /// The canonical string form.
    pub fn as_str(&self) -> (s: &str)
        ensures
            s@ == self@,
    {
        self.0.as_str()
    }
}

proof fn lemma_keep_alnum_append(a: Seq<char>, b: Seq<char>)
    ensures
        keep_alnum(a + b) == keep_alnum(a) + keep_alnum(b),
    decreases b.len(),
{
    if b.len() == 0 {
        assert(a + b =~= a);
        assert(keep_alnum(a) + keep_alnum(b) =~= keep_alnum(a));
    } else {
        assert((a + b).drop_last() =~= a + b.drop_last());
        assert((a + b).last() == b.last());
        lemma_keep_alnum_append(a, b.drop_last());
        if is_alnum(b.last()) {
            assert(keep_alnum(a) + keep_alnum(b) =~= (keep_alnum(a) + keep_alnum(b.drop_last())).push(
                b.last(),
            ));
        }
    }
}

proof fn lemma_keep_alnum_all(b: Seq<char>)
    requires
        forall|i: int| 0 <= i < b.len() ==> is_alnum(#[trigger] b[i]),
    ensures
        keep_alnum(b) == b,
    decreases b.len(),
{
    if b.len() > 0 {
        lemma_keep_alnum_all(b.drop_last());
        assert(b.drop_last().push(b.last()) =~= b);
    }
}

proof fn lemma_keep_dash()
    ensures
        keep_alnum(seq!['-']) == Seq::<char>::empty(),
{
    let d = seq!['-'];
    assert(d.drop_last() =~= Seq::<char>::empty());
    assert(d.last() == '-');
    assert(!is_alnum(d.last()));
    assert(keep_alnum(Seq::<char>::empty()) == Seq::<char>::empty());
}

/// A token in canonical form parses to itself: parsing is idempotent on
/// its own output, and a generated token round-trips.
pub proof fn canonical_round_trip(body: Seq<char>)
    requires
        valid_body(body),
    ensures
        parses_to(canonical(body)) == Some(canonical(body)),
        cleaned(canonical(body)) == body,
{
    let t = canonical(body);
    let g1 = body.subrange(0, 4);
    let g2 = body.subrange(4, 8);
    let g3 = body.subrange(8, 12);
    assert(t.len() == 22);
    assert(!is_white(t[0]));
    assert(t[21] == body[11]);
    assert(in_alphabet(body[11]));
    assert(!is_white(t[21]));
    assert(trim_start(t) == t);
    assert(trim_end(t) == t);
    assert forall|i: int| 0 <= i < t.len() implies upper(#[trigger] t[i]) == t[i] by {
        if i >= 8 && i < 12 {
            assert(t[i] == body[i - 8]);
            assert(in_alphabet(body[i - 8]));
        } else if i >= 13 && i < 17 {
            assert(t[i] == body[i - 9]);
            assert(in_alphabet(body[i - 9]));
        } else if i >= 18 {
            assert(t[i] == body[i - 10]);
            assert(in_alphabet(body[i - 10]));
        }
    }
    let u = t.map_values(|c: char| upper(c));
    assert(u =~= t);
    assert(u.take(7) =~= prefix());
    let rest = u.skip(7);
    assert(rest =~= seq!['-'] + g1 + seq!['-'] + g2 + seq!['-'] + g3);
    assert forall|i: int| 0 <= i < 4 implies is_alnum(#[trigger] g1[i]) by {
        assert(in_alphabet(body[i]));
    }
    assert forall|i: int| 0 <= i < 4 implies is_alnum(#[trigger] g2[i]) by {
        assert(in_alphabet(body[i + 4]));
    }
    assert forall|i: int| 0 <= i < 4 implies is_alnum(#[trigger] g3[i]) by {
        assert(in_alphabet(body[i + 8]));
    }
    lemma_keep_alnum_all(g1);
    lemma_keep_alnum_all(g2);
    lemma_keep_alnum_all(g3);
    lemma_keep_dash();
    lemma_keep_alnum_append(seq!['-'], g1);
    lemma_keep_alnum_append(seq!['-'] + g1, seq!['-']);
    lemma_keep_alnum_append(seq!['-'] + g1 + seq!['-'], g2);
    lemma_keep_alnum_append(seq!['-'] + g1 + seq!['-'] + g2, seq!['-']);
    lemma_keep_alnum_append(seq!['-'] + g1 + seq!['-'] + g2 + seq!['-'], g3);
    assert(keep_alnum(rest) =~= g1 + g2 + g3);
    assert(g1 + g2 + g3 =~= body);
}

/// The canonical string for a valid body.
fn assemble(body: &Vec<char>) -> (s: String)
    requires
        body@.len() == 12,
    ensures
        s@ == canonical(body@),
{
    let mut out: Vec<char> = Vec::new();
    out.push('C');
    out.push('L');
    out.push('O');
    out.push('S');
    out.push('U');
    out.push('R');
    out.push('E');
    let mut g: usize = 0;
    while g < 3
        invariant
            g <= 3,
            body@.len() == 12,
            out@ == prefix() + (if g >= 1 { seq!['-'] + body@.subrange(0, 4) } else { seq![] }) + (
            if g >= 2 { seq!['-'] + body@.subrange(4, 8) } else { seq![] }) + (if g >= 3 { seq!['-'] + body@.subrange(8, 12) } else { seq![] }),
        decreases 3 - g,
    {
        let ghost before = out@;
        out.push('-');
        let mut k: usize = 0;
        while k < 4
            invariant
                k <= 4,
                g < 3,
                body@.len() == 12,
                out@ == before.push('-') + body@.subrange(4 * g as int, 4 * g + k),
            decreases 4 - k,
        {
            out.push(body[4 * g + k]);
            k += 1;
            assert(out@ =~= before.push('-') + body@.subrange(4 * g as int, 4 * g + k));
        }
        g += 1;
        assert(out@ =~= prefix() + (if g >= 1 { seq!['-'] + body@.subrange(0, 4) } else { seq![] }) + (
            if g >= 2 { seq!['-'] + body@.subrange(4, 8) } else { seq![] }) + (if g >= 3 { seq!['-'] + body@.subrange(8, 12) } else { seq![] }));
    }
    assert(out@ =~= canonical(body@));
    string_of(out.as_slice())
}

} // verus!
