//! The names an entry can have on the host.

use std::collections::HashMap;
use vstd::prelude::*;
use vstd::std_specs::hash::*;
use vstd::string::*;

use crate::checksum::name_hash;
use crate::text::{chars_of, dec, law_decimal_digits, string_of, Text};

verus! {

broadcast use group_hash_axioms;

/// The kind of host that files are written to, which decides what a name may be.
#[derive(Clone, Copy, Debug, PartialEq, Eq, Structural)]
pub enum Host {
    Unix,
    Windows,
}

/// A character that cannot stand in a name. A separator or a control character is unusable
/// on any host; the rest are illegal on Windows only.
pub open spec fn is_illegal(c: char, host: Host) -> bool {
    ||| c == '/' || c == '\\' || ' ' > c
    ||| host == Host::Windows && (c == '<' || c == '>' || c == ':' || c == '"' || c == '|' || c
        == '?' || c == '*')
}

/// Only dots, or nothing at all: navigation, not a name.
pub open spec fn is_dots(s: Seq<char>) -> bool {
    forall|i: int| 0 <= i < s.len() ==> s[i] == '.'
}

/// The part of a name before its first dot.
pub open spec fn stem(s: Seq<char>) -> Seq<char>
    decreases s.len(),
{
    if s.len() == 0 || s[0] == '.' {
        seq![]
    } else {
        seq![s[0]] + stem(s.skip(1))
    }
}

/// The upper case form of an ASCII letter; any other character is left as it is.
pub open spec fn upper(c: char) -> char {
    if 'a' <= c <= 'z' {
        (c as u32 - 32) as char
    } else {
        c
    }
}

/// The text is `word`, whatever the case of its letters.
pub open spec fn is_word(s: Seq<char>, word: Seq<char>) -> bool {
    s.len() == word.len() && forall|i: int| 0 <= i < s.len() ==> upper(#[trigger] s[i]) == word[i]
}

/// Names that Windows keeps for devices, with any ending.
pub open spec fn is_reserved(s: Seq<char>) -> bool {
    ||| is_word(s, seq!['C', 'O', 'N'])
    ||| is_word(s, seq!['P', 'R', 'N'])
    ||| is_word(s, seq!['A', 'U', 'X'])
    ||| is_word(s, seq!['N', 'U', 'L'])
    ||| is_word(s, seq!['C', 'O', 'N', 'I', 'N', '$'])
    ||| is_word(s, seq!['C', 'O', 'N', 'O', 'U', 'T', '$'])
    ||| s.len() == 4 && '0' <= s[3] <= '9' && (is_word(s.take(3), seq!['C', 'O', 'M']) || is_word(
        s.take(3),
        seq!['L', 'P', 'T'],
    ))
}

/// A name with what is illegal in it replaced.
pub open spec fn cleaned(name: Seq<char>, host: Host) -> Seq<char> {
    Seq::new(
        name.len(),
        |i: int|
            if is_illegal(name[i], host) {
                '_'
            } else {
                name[i]
            },
    )
}

/// A name that is not navigation.
pub open spec fn undotted(s: Seq<char>) -> Seq<char> {
    if is_dots(s) {
        seq!['_'] + s
    } else {
        s
    }
}

/// A name that Windows takes as it stands.
pub open spec fn for_windows(s: Seq<char>) -> Seq<char> {
    let t = if s.len() > 0 && (s.last() == '.' || s.last() == ' ') {
        s.push('_')
    } else {
        s
    };
    if is_reserved(stem(t)) {
        seq!['_'] + t
    } else {
        t
    }
}

/// The name that an entry called `name` gets on the host: exactly one safe path component.
pub open spec fn host_name_of(name: Seq<char>, host: Host) -> Seq<char> {
    let s = undotted(cleaned(name, host));
    match host {
        Host::Unix => s,
        Host::Windows => for_windows(s),
    }
}

fn illegal(c: char, host: Host) -> (r: bool)
    ensures
        r == is_illegal(c, host),
{
    if c == '/' || c == '\\' || ' ' > c {
        return true;
    }
    match host {
        Host::Unix => false,
        Host::Windows => c == '<' || c == '>' || c == ':' || c == '"' || c == '|' || c == '?' || c
            == '*',
    }
}

fn dots(s: &Vec<char>) -> (r: bool)
    ensures
        r == is_dots(s@),
{
    let mut i: usize = 0;
    while i < s.len()
        invariant
            i <= s@.len(),
            forall|k: int| 0 <= k < i ==> s@[k] == '.',
        decreases s@.len() - i,
    {
        if s[i] != '.' {
            return false;
        }
        i += 1;
    }
    true
}

fn to_upper(c: char) -> (r: char)
    ensures
        r == upper(c),
{
    if 'a' <= c && c <= 'z' {
        let n: u8 = c as u8;
        (n - 32) as char
    } else {
        c
    }
}

/// The characters of `s` from `from` to `to` are those of `word`, whatever their case.
fn word_at(s: &Vec<char>, to: usize, word: &[char]) -> (r: bool)
    requires
        to <= s@.len(),
    ensures
        r == is_word(s@.take(to as int), word@),
{
    if to != word.len() {
        return false;
    }
    let ghost t = s@.take(to as int);
    let mut i: usize = 0;
    while i < to
        invariant
            i <= to <= s@.len(),
            to == word@.len(),
            t == s@.take(to as int),
            forall|k: int| 0 <= k < i ==> upper(#[trigger] t[k]) == word@[k],
        decreases to - i,
    {
        assert(t[i as int] == s@[i as int]);
        if to_upper(s[i]) != word[i] {
            return false;
        }
        i += 1;
    }
    true
}

fn reserved(s: &Vec<char>, to: usize) -> (r: bool)
    requires
        to <= s@.len(),
    ensures
        r == is_reserved(s@.take(to as int)),
{
    let ghost t = s@.take(to as int);
    assert(['C', 'O', 'N']@ =~= seq!['C', 'O', 'N']);
    assert(['P', 'R', 'N']@ =~= seq!['P', 'R', 'N']);
    assert(['A', 'U', 'X']@ =~= seq!['A', 'U', 'X']);
    assert(['N', 'U', 'L']@ =~= seq!['N', 'U', 'L']);
    assert(['C', 'O', 'N', 'I', 'N', '$']@ =~= seq!['C', 'O', 'N', 'I', 'N', '$']);
    assert(['C', 'O', 'N', 'O', 'U', 'T', '$']@ =~= seq!['C', 'O', 'N', 'O', 'U', 'T', '$']);
    assert(['C', 'O', 'M']@ =~= seq!['C', 'O', 'M']);
    assert(['L', 'P', 'T']@ =~= seq!['L', 'P', 'T']);
    if word_at(s, to, &['C', 'O', 'N']) || word_at(s, to, &['P', 'R', 'N']) || word_at(
        s,
        to,
        &['A', 'U', 'X'],
    ) || word_at(s, to, &['N', 'U', 'L']) || word_at(s, to, &['C', 'O', 'N', 'I', 'N', '$'])
        || word_at(s, to, &['C', 'O', 'N', 'O', 'U', 'T', '$']) {
        return true;
    }
    if to == 4 {
        assert(t.take(3) =~= s@.take(3));
        assert(t[3] == s@[3]);
        '0' <= s[3] && s[3] <= '9' && (word_at(s, 3, &['C', 'O', 'M']) || word_at(
            s,
            3,
            &['L', 'P', 'T'],
        ))
    } else {
        false
    }
}

/// The length of the stem of a name.
fn stem_len(s: &Vec<char>) -> (n: usize)
    ensures
        n <= s@.len(),
        s@.take(n as int) == stem(s@),
{
    let mut i: usize = 0;
    assert(s@.skip(0) =~= s@);
    assert(s@.take(0) + stem(s@) =~= stem(s@));
    while i < s.len() && s[i] != '.'
        invariant
            i <= s@.len(),
            s@.take(i as int) + stem(s@.skip(i as int)) == stem(s@),
        decreases s@.len() - i,
    {
        assert(s@.skip(i as int).skip(1) =~= s@.skip(i + 1));
        assert(s@.take(i as int) + (seq![s@[i as int]] + stem(s@.skip(i + 1))) =~= s@.take(i + 1)
            + stem(s@.skip(i + 1)));
        i += 1;
    }
    assert(s@.take(i as int) + seq![] =~= s@.take(i as int));
    i
}

/// Turns a name from the filesystem into exactly one safe path component.
///
/// The traversal characters are replaced on every host: a name of `..` or one that holds a
/// slash would otherwise escape the destination.
pub fn host_name(name: &str, host: Host) -> (r: String)
    ensures
        r@ == host_name_of(name@, host),
{
    let all = chars_of(name);
    let mut out: Vec<char> = Vec::new();
    let mut i: usize = 0;
    while i < all.len()
        invariant
            i <= all@.len(),
            out@ == cleaned(all@, host).take(i as int),
        decreases all@.len() - i,
    {
        let ghost before = out@;
        if illegal(all[i], host) {
            out.push('_');
        } else {
            out.push(all[i]);
        }
        assert(out@ =~= cleaned(all@, host).take(i + 1));
        i += 1;
    }
    assert(out@ =~= cleaned(all@, host));
    if dots(&out) {
        let ghost before = out@;
        out.insert(0, '_');
        assert(out@ =~= seq!['_'] + before);
    }
    match host {
        Host::Unix => {},
        Host::Windows => {
            let n: usize = out.len();
            if n > 0 && (out[n - 1] == '.' || out[n - 1] == ' ') {
                out.push('_');
            }
            let k: usize = stem_len(&out);
            if reserved(&out, k) {
                let ghost before = out@;
                out.insert(0, '_');
                assert(out@ =~= seq!['_'] + before);
            }
        },
    }
    string_of(&out)
}

/// A text that can be a path component on the host: not empty, not navigation, and nothing
/// in it that is illegal there.
pub open spec fn is_safe(s: Seq<char>, host: Host) -> bool {
    &&& !is_dots(s)
    &&& forall|i: int| 0 <= i < s.len() ==> !is_illegal(#[trigger] s[i], host)
    &&& host == Host::Windows ==> s.last() != '.' && s.last() != ' ' && !is_reserved(stem(s))
}

proof fn lemma_stem_prefixed(s: Seq<char>)
    ensures
        stem(seq!['_'] + s) == seq!['_'] + stem(s),
{
    let t = seq!['_'] + s;
    assert(t.skip(1) =~= s);
}

proof fn lemma_prefixed_not_reserved(s: Seq<char>)
    ensures
        !is_reserved(seq!['_'] + s),
{
    let t = seq!['_'] + s;
    assert(t[0] == '_');
    assert(upper(t[0]) == '_');
    if t.len() == 4 {
        assert(t.take(3)[0] == '_');
    }
}

/// Every name becomes a safe component: no separator and no control character is left in
/// it, and it is not empty, `.`, `..` or any other run of dots. On Windows it is also free
/// of the characters illegal there, does not end in a dot or a space, and names no device.
pub proof fn law_host_name_is_safe(name: Seq<char>, host: Host)
    ensures
        is_safe(host_name_of(name, host), host),
{
    let a = cleaned(name, host);
    let b = undotted(a);
    assert forall|i: int| 0 <= i < b.len() implies !is_illegal(#[trigger] b[i], host) by {
        if is_dots(a) {
            if i > 0 {
                assert(b[i] == a[i - 1]);
            }
        } else {
            assert(b[i] == a[i]);
        }
    }
    assert(!is_dots(b)) by {
        if is_dots(a) {
            assert(b[0] == '_');
        }
    }
    if host == Host::Windows {
        let c = if b.len() > 0 && (b.last() == '.' || b.last() == ' ') {
            b.push('_')
        } else {
            b
        };
        assert(!is_dots(c)) by {
            let i = choose|i: int| 0 <= i < b.len() && b[i] != '.';
            assert(c[i] == b[i]);
        }
        let r = for_windows(b);
        if is_reserved(stem(c)) {
            assert(r[0] == '_');
            lemma_stem_prefixed(c);
            lemma_prefixed_not_reserved(stem(c));
            assert(r.last() == c.last());
            assert forall|i: int| 0 <= i < r.len() implies !is_illegal(#[trigger] r[i], host) by {
                if i > 0 {
                    assert(r[i] == c[i - 1]);
                }
            }
        }
    }
}

/// A name that is already safe is left as it is.
pub proof fn law_safe_names_are_untouched(name: Seq<char>, host: Host)
    requires
        is_safe(name, host),
    ensures
        host_name_of(name, host) == name,
{
    assert(cleaned(name, host) =~= name);
}

/// What `str::to_lowercase` makes of a text.
pub uninterp spec fn lower_text(s: Seq<char>) -> Seq<char>;

/// `str::to_lowercase`: the text in lower case by the rules of Unicode, which are named,
/// not written out.
#[verifier::external_body]
fn lowercase(s: &str) -> (r: String)
    ensures
        r@ == lower_text(s@),
{
    s.to_lowercase()
}

/// The form under which the host takes two names for the same.
pub open spec fn folded(s: Seq<char>, host: Host) -> Seq<char> {
    match host {
        Host::Unix => s,
        Host::Windows => lower_text(s),
    }
}

/// The form under which the host takes two names for the same: Windows folds case.
pub fn fold(s: &str, host: Host) -> (r: String)
    ensures
        r@ == folded(s@, host),
{
    match host {
        Host::Unix => s.to_owned(),
        Host::Windows => lowercase(s),
    }
}

/// A set of names.
pub struct NameSet {
    /// The names by their hash.
    buckets: HashMap<u64, Vec<String>>,
}

impl NameSet {
    closed spec fn holds(self, name: Seq<char>) -> bool {
        exists|k: u64, i: int| #[trigger]
            self.buckets@.contains_key(k) && 0 <= i < self.buckets@[k]@.len() && (
            #[trigger] self.buckets@[k]@[i])@ == name
    }

    /// Every name is where its hash says.
    pub closed spec fn wf(self) -> bool {
        forall|k: u64, i: int| #[trigger]
            self.buckets@.contains_key(k) && 0 <= i < self.buckets@[k]@.len() ==> k == hashed(
                (#[trigger] self.buckets@[k]@[i])@,
            )
    }
}

/// The bucket of a name.
spec fn hashed(name: Seq<char>) -> u64 {
    crate::checksum::name_hash_of(vstd::utf8::encode_utf8(name)) as u64
}

impl View for NameSet {
    type V = Set<Seq<char>>;

    closed spec fn view(&self) -> Set<Seq<char>> {
        Set::new(|name: Seq<char>| self.holds(name))
    }
}

impl NameSet {
    pub fn new() -> (s: NameSet)
        ensures
            s.wf(),
            s@ == Set::<Seq<char>>::empty(),
    {
        let s = NameSet { buckets: HashMap::new() };
        assert(s@ =~= Set::<Seq<char>>::empty());
        s
    }

    pub fn contains(&self, name: &String) -> (r: bool)
        requires
            self.wf(),
        ensures
            r == self@.contains(name@),
    {
        let k: u64 = name_hash(name.as_str().as_bytes());
        assert(k == hashed(name@));
        match self.buckets.get(&k) {
            None => false,
            Some(b) => {
                let mut i: usize = 0;
                while i < b.len()
                    invariant
                        i <= b@.len(),
                        self.buckets@.contains_key(k),
                        self.buckets@[k] == *b,
                        forall|j: int| 0 <= j < i ==> (#[trigger] b@[j])@ != name@,
                    decreases b@.len() - i,
                {
                    if b[i] == *name {
                        assert(self.buckets@.contains_key(k) && self.buckets@[k]@[i as int]@
                            == name@);
                        return true;
                    }
                    i += 1;
                }
                false
            },
        }
    }

    pub fn insert(&mut self, name: String)
        requires
            old(self).wf(),
        ensures
            final(self).wf(),
            final(self)@ == old(self)@.insert(name@),
    {
        let ghost before = *self;
        let ghost v = name@;
        let k: u64 = name_hash(name.as_str().as_bytes());
        assert(k == hashed(v));
        let mut b: Vec<String> = match self.buckets.remove(&k) {
            Some(b) => b,
            None => Vec::new(),
        };
        let ghost old_bucket = b@;
        b.push(name);
        let ghost new_bucket = b@;
        self.buckets.insert(k, b);
        proof {
            let n = old_bucket.len() as int;
            assert forall|j: u64, i: int| #[trigger]
                self.buckets@.contains_key(j) && 0 <= i < self.buckets@[j]@.len() implies j
                == hashed((#[trigger] self.buckets@[j]@[i])@) by {
                if j == k {
                    if i < n {
                        assert(before.buckets@.contains_key(k));
                        assert(before.buckets@[k]@[i] == new_bucket[i]);
                    }
                } else {
                    assert(before.buckets@.contains_key(j));
                }
            }
            assert forall|x: Seq<char>| self@.contains(x) == before@.insert(v).contains(x) by {
                if self.holds(x) {
                    let (j, i) = choose|j: u64, i: int| #[trigger]
                        self.buckets@.contains_key(j) && 0 <= i < self.buckets@[j]@.len() && (
                        #[trigger] self.buckets@[j]@[i])@ == x;
                    if j == k {
                        if i < n {
                            assert(before.buckets@.contains_key(k));
                            assert(before.buckets@[k]@[i]@ == x);
                        }
                    } else {
                        assert(before.buckets@.contains_key(j));
                        assert(before.buckets@[j]@[i]@ == x);
                    }
                }
                if before.holds(x) {
                    let (j, i) = choose|j: u64, i: int| #[trigger]
                        before.buckets@.contains_key(j) && 0 <= i < before.buckets@[j]@.len() && (
                        #[trigger] before.buckets@[j]@[i])@ == x;
                    assert(self.buckets@.contains_key(j));
                    assert(self.buckets@[j]@[i]@ == x);
                }
                if x == v {
                    assert(self.buckets@.contains_key(k));
                    assert(self.buckets@[k]@[n]@ == x);
                }
            }
            assert(self@ =~= before@.insert(v));
        }
    }
}

/// The name under which a file called `name` is written before it is moved into its place,
/// unless that is taken.
pub open spec fn partial_of(name: Seq<char>) -> Seq<char> {
    name + ".btrfs-peek-partial"@
}

/// The name under which a file is written before it is moved into its place.
pub fn partial_name(name: &str) -> (r: String)
    ensures
        r@ == partial_of(name@),
{
    Text::of(name).lit(".btrfs-peek-partial").done()
}

/// The host does not take the name for one already there.
pub open spec fn is_free(name: Seq<char>, taken: Set<Seq<char>>, host: Host) -> bool {
    !taken.contains(folded(name, host))
}

/// Whether a name is free.
pub fn name_is_free(name: &str, taken: &NameSet, host: Host) -> (r: bool)
    requires
        taken.wf(),
    ensures
        r == is_free(name@, taken@, host),
{
    !taken.contains(&fold(name, host))
}

/// The `n`th name tried for an entry: the name itself, then with a number after it.
pub open spec fn candidate(base: Seq<char>, n: u64) -> Seq<char> {
    if n == 0 {
        base
    } else {
        base + "~"@ + dec(n as nat)
    }
}

/// The first name from the `n`th on that is free on the host.
pub open spec fn first_free(base: Seq<char>, taken: Set<Seq<char>>, host: Host, n: u64) -> Option<
    Seq<char>,
>
    decreases u64::MAX - n,
{
    if is_free(candidate(base, n), taken, host) {
        Some(candidate(base, n))
    } else if n == u64::MAX {
        None
    } else {
        first_free(base, taken, host, (n + 1) as u64)
    }
}

fn nth(base: &str, n: u64) -> (r: String)
    ensures
        r@ == candidate(base@, n),
{
    if n == 0 {
        base.to_owned()
    } else {
        Text::of(base).lit("~").num(n).done()
    }
}

/// The name to use for an entry that should be called `base`.
pub fn free_name(base: &str, taken: &NameSet, host: Host) -> (r: Option<String>)
    requires
        taken.wf(),
    ensures
        match r {
            Some(s) => first_free(base@, taken@, host, 0) == Some(s@),
            None => first_free(base@, taken@, host, 0) is None,
        },
{
    let mut n: u64 = 0;
    loop
        invariant
            taken.wf(),
            first_free(base@, taken@, host, 0) == first_free(base@, taken@, host, n),
        decreases u64::MAX - n,
    {
        let name = nth(base, n);
        if name_is_free(name.as_str(), taken, host) {
            return Some(name);
        }
        if n == u64::MAX {
            return None;
        }
        n += 1;
    }
}

/// The host does not take the name chosen for one already there.
pub proof fn law_chosen_name_is_free(base: Seq<char>, taken: Set<Seq<char>>, host: Host, n: u64)
    ensures
        first_free(base, taken, host, n) matches Some(s) ==> is_free(s, taken, host),
    decreases u64::MAX - n,
{
    if !is_free(candidate(base, n), taken, host) && n < u64::MAX {
        law_chosen_name_is_free(base, taken, host, (n + 1) as u64);
    }
}

/// A tilde keeps a text from being a reserved word.
proof fn lemma_tilde_not_reserved(s: Seq<char>, p: int)
    requires
        0 <= p < s.len(),
        s[p] == '~',
    ensures
        !is_reserved(s),
{
    assert(upper(s[p]) == '~');
    if s.len() == 4 && p < 3 {
        assert(s.take(3)[p] == '~');
    }
}

/// What comes after a name with a tilde does not change its stem, unless there is no dot
/// before it.
proof fn lemma_stem_numbered(s: Seq<char>, t: Seq<char>)
    requires
        t.len() > 0,
        t[0] == '~',
    ensures
        stem(s + t) == stem(s) || exists|p: int|
            0 <= p < stem(s + t).len() && #[trigger] stem(s + t)[p] == '~',
    decreases s.len(),
{
    if s.len() == 0 {
        assert(s + t =~= t);
        assert(stem(t)[0] == '~');
    } else if s[0] != '.' {
        let u = s.skip(1);
        assert((s + t).skip(1) =~= u + t);
        lemma_stem_numbered(u, t);
        if stem(u + t) != stem(u) {
            let p = choose|p: int| 0 <= p < stem(u + t).len() && #[trigger] stem(u + t)[p] == '~';
            assert(stem(s + t)[p + 1] == '~');
        }
    }
}

/// A number after a safe name leaves it safe.
pub proof fn law_numbered_names_are_safe(base: Seq<char>, host: Host, n: u64)
    requires
        is_safe(base, host),
    ensures
        is_safe(candidate(base, n), host),
{
    if n > 0 {
        reveal_strlit("~");
        law_decimal_digits(n as nat);
        let d = dec(n as nat);
        let t = "~"@ + d;
        let s = base + t;
        assert(candidate(base, n) =~= s);
        assert(t[0] == '~');
        let k = choose|k: int| 0 <= k < base.len() && base[k] != '.';
        assert(s[k] == base[k]);
        assert forall|i: int| 0 <= i < s.len() implies !is_illegal(#[trigger] s[i], host) by {
            if i < base.len() {
                assert(s[i] == base[i]);
            } else if i > base.len() {
                assert(s[i] == d[i - base.len() - 1]);
            }
        }
        assert(s.last() == d[d.len() - 1]);
        lemma_stem_numbered(base, t);
        if stem(s) != stem(base) {
            let p = choose|p: int| 0 <= p < stem(s).len() && #[trigger] stem(s)[p] == '~';
            lemma_tilde_not_reserved(stem(s), p);
        }
    }
}

/// A name made fit for a host stays as it is when it is made so again.
pub proof fn law_host_name_is_settled(name: Seq<char>, host: Host)
    ensures
        host_name_of(host_name_of(name, host), host) == host_name_of(name, host),
{
    law_host_name_is_safe(name, host);
    law_safe_names_are_untouched(host_name_of(name, host), host);
}

/// What comes after a dot is no part of the stem.
proof fn lemma_stem_dotted(s: Seq<char>, t: Seq<char>)
    requires
        t.len() > 0,
        t[0] == '.',
    ensures
        stem(s + t) == stem(s),
    decreases s.len(),
{
    if s.len() == 0 {
        assert(s + t =~= t);
    } else if s[0] != '.' {
        assert((s + t).skip(1) =~= s.skip(1) + t);
        lemma_stem_dotted(s.skip(1), t);
    }
}

/// The temporary name that goes with a safe name is safe too.
pub proof fn law_partial_names_are_safe(name: Seq<char>, host: Host)
    requires
        is_safe(name, host),
    ensures
        is_safe(partial_of(name), host),
{
    reveal_strlit(".btrfs-peek-partial");
    let t = ".btrfs-peek-partial"@;
    let s = name + t;
    let k = choose|k: int| 0 <= k < name.len() && name[k] != '.';
    assert(s[k] == name[k]);
    assert forall|i: int| 0 <= i < s.len() implies !is_illegal(#[trigger] s[i], host) by {
        if i < name.len() {
            assert(s[i] == name[i]);
        } else {
            assert(s[i] == t[i - name.len()]);
        }
    }
    assert(s.last() == t[t.len() - 1]);
    lemma_stem_dotted(name, t);
}

} // verus!
