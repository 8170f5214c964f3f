//! Text building: numbers in a base, padding, splitting and joining.

use vstd::prelude::*;
use vstd::string::*;
use vstd::utf8::*;

verus! {

/// `String::push` appends one character.
pub assume_specification[ String::push ](s: &mut String, c: char)
    ensures
        final(s)@ == old(s)@.push(c),
;

/// What `String::from_utf8_lossy` makes of bytes that need not be UTF-8.
pub uninterp spec fn utf8_lossy(b: Seq<u8>) -> Seq<char>;

/// `String::from_utf8_lossy`: the text of `b`, with invalid sequences replaced. Valid
/// UTF-8 is decoded as it stands; the result on other bytes is named, not written out.
#[verifier::external_body]
pub(crate) fn lossy(b: &[u8]) -> (s: String)
    ensures
        s@ == utf8_lossy(b@),
        valid_utf8(b@) ==> s@ == decode_utf8(b@),
{
    String::from_utf8_lossy(b).into_owned()
}

/// What `{:?}` makes of a text.
pub uninterp spec fn debug_text(s: Seq<char>) -> Seq<char>;

/// `format!("{:?}", ..)` of a text: the text in double quotes, with escapes. Which
/// characters are escaped, and how, is named, not written out.
#[verifier::external_body]
pub(crate) fn quoted(s: &str) -> (q: String)
    ensures
        q@ == debug_text(s@),
{
    format!("{:?}", s)
}

/// The character of one digit below 36.
pub open spec fn digit_char(d: nat) -> char {
    if d < 10 {
        (48 + d) as char
    } else {
        (87 + d) as char
    }
}

/// A number written in a base, most significant digit first.
pub open spec fn digits(n: nat, base: nat) -> Seq<char>
    decreases n,
{
    if base < 2 || n < base {
        seq![digit_char(n)]
    } else {
        proof {
            vstd::arithmetic::div_mod::lemma_div_decreases(n as int, base as int);
        }
        digits(n / base, base).push(digit_char(n % base))
    }
}

/// A number written in decimal.
pub open spec fn dec(n: nat) -> Seq<char> {
    digits(n, 10)
}

/// A number in decimal is one or more of the ten digits.
pub proof fn law_decimal_digits(n: nat)
    ensures
        dec(n).len() > 0,
        forall|i: int| 0 <= i < dec(n).len() ==> '0' <= #[trigger] dec(n)[i] <= '9',
    decreases n,
{
    if n >= 10 {
        law_decimal_digits(n / 10);
        let front = dec(n / 10);
        assert forall|i: int| 0 <= i < dec(n).len() implies '0' <= #[trigger] dec(n)[i] <= '9' by {
            if i < front.len() {
                assert(dec(n)[i] == front[i]);
            }
        }
    }
}

/// `a` comes before `b` in the order of their characters; a prefix comes first.
pub open spec fn text_below(a: Seq<char>, b: Seq<char>) -> bool
    decreases a.len(),
{
    if b.len() == 0 {
        false
    } else if a.len() == 0 {
        true
    } else if a[0] != b[0] {
        a[0] < b[0]
    } else {
        text_below(a.skip(1), b.skip(1))
    }
}

fn digit(d: u8) -> (c: char)
    requires
        d < 36,
    ensures
        c == digit_char(d as nat),
{
    if d < 10 {
        (48 + d) as char
    } else {
        (87 + d) as char
    }
}

/// Appends `n`, written in `base`, to `s`.
pub fn push_number(s: &mut String, n: u64, base: u64)
    requires
        2 <= base <= 36,
    ensures
        final(s)@ == old(s)@ + digits(n as nat, base as nat),
    decreases n,
{
    let ghost before = s@;
    if n >= base {
        assert(n / base < n) by (nonlinear_arith)
            requires
                n >= base,
                base >= 2,
        ;
        push_number(s, n / base, base);
    }
    assert(n % base < base) by (nonlinear_arith)
        requires
            base >= 2,
    ;
    s.push(digit((n % base) as u8));
    proof {
        let last = digit_char((n % base) as nat);
        if n >= base {
            assert((before + digits((n / base) as nat, base as nat)).push(last) =~= before + digits(
                (n / base) as nat,
                base as nat,
            ).push(last));
        } else {
            assert(n % base == n) by (nonlinear_arith)
                requires
                    n < base,
            ;
            assert(before.push(last) =~= before + seq![last]);
        }
    }
}

/// `n` written in `base`.
pub fn number(n: u64, base: u64) -> (s: String)
    requires
        2 <= base <= 36,
    ensures
        s@ == digits(n as nat, base as nat),
{
    let mut s = String::new();
    push_number(&mut s, n, base);
    s
}

/// The characters of `s`, one by one.
pub fn chars_of(s: &str) -> (v: Vec<char>)
    ensures
        v@ == s@,
{
    let mut v: Vec<char> = Vec::new();
    for c in it: s.chars()
        invariant
            v@ == it.seq().take(it.index()),
            it.seq() == s@,
    {
        v.push(c);
    }
    v
}

/// The text made of `v`.
pub fn string_of(v: &Vec<char>) -> (s: String)
    ensures
        s@ == v@,
{
    let mut s = String::new();
    for i in 0..v.len()
        invariant
            s@ == v@.take(i as int),
    {
        s.push(v[i]);
    }
    s
}

/// A text with `c` before it where it has fewer than `width` characters.
pub open spec fn padded_left(s: Seq<char>, width: nat, c: char) -> Seq<char> {
    if s.len() < width {
        Seq::new((width - s.len()) as nat, |i: int| c) + s
    } else {
        s
    }
}

/// `s` with `c` before it where it has fewer than `width` characters.
pub fn pad_left(s: &str, width: usize, c: char) -> (r: String)
    ensures
        r@ == padded_left(s@, width as nat, c),
{
    let mut have: usize = 0;
    for x in it: s.chars()
        invariant
            it.seq() == s@,
            have == if it.index() < width {
                it.index()
            } else {
                width as int
            },
    {
        if have < width {
            have += 1;
        }
    }
    let mut r = String::new();
    assert(r@ =~= Seq::new(0, |i: int| c));
    let mut k: usize = have;
    while k < width
        invariant
            have <= k,
            k <= width || have == k,
            r@ == Seq::new((k - have) as nat, |i: int| c),
        decreases width - k,
    {
        r.push(c);
        assert(r@ =~= Seq::new((k + 1 - have) as nat, |i: int| c));
        k += 1;
    }
    let ghost pad = r@;
    r.append(s);
    assert(r@ =~= padded_left(s@, width as nat, c));
    r
}

/// A text under construction, one part after another.
pub struct Text {
    s: String,
}

impl View for Text {
    type V = Seq<char>;

    closed spec fn view(&self) -> Seq<char> {
        self.s@
    }
}

impl Text {
    pub fn of(s: &str) -> (r: Text)
        ensures
            r@ == s@,
    {
        Text { s: s.to_owned() }
    }

    /// Appends `t`.
    pub fn lit(self, t: &str) -> (r: Text)
        ensures
            r@ == self@ + t@,
    {
        Text { s: self.s.concat(t) }
    }

    /// Appends `n` in decimal.
    pub fn num(self, n: u64) -> (r: Text)
        ensures
            r@ == self@ + dec(n as nat),
    {
        let mut s = self.s;
        push_number(&mut s, n, 10);
        Text { s }
    }

    pub fn done(self) -> (s: String)
        ensures
            s@ == self@,
    {
        self.s
    }
}

} // verus!
