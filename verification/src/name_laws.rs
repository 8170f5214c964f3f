//! What a name becomes on the host, stated by its characters.

use vstd::prelude::*;

use crate::names::{
    candidate, cleaned, first_free, folded, host_name_of, is_dots, is_illegal, is_reserved,
    is_safe, is_word, law_host_name_is_safe, law_safe_names_are_untouched, partial_of, stem,
    undotted, upper, Host,
};
use crate::number_laws::{is_numeral, law_decimals};
use crate::text::dec;

verus! {

/// A character that no host can have in a name: a control character, a slash, a backslash.
/// Windows cannot have `"`, `*`, `:`, `<`, `>`, `?` or `|` either.
pub open spec fn is_bad(c: char, host: Host) -> bool {
    let n = c as int;
    ||| n < 32 || n == 47 || n == 92
    ||| host == Host::Windows && (n == 34 || n == 42 || n == 58 || n == 60 || n == 62 || n == 63 || n
        == 124)
}

/// The two texts have the same characters, the first of them in either case.
pub open spec fn spells(s: Seq<char>, word: Seq<char>) -> bool {
    s.len() == word.len() && forall|i: int|
        0 <= i < s.len() ==> (#[trigger] s[i] == word[i] || ('A' <= word[i] <= 'Z' && s[i] as int
            == word[i] as int + 32))
}

/// A name that Windows keeps for a device.
pub open spec fn is_device(s: Seq<char>) -> bool {
    ||| spells(s, seq!['C', 'O', 'N']) || spells(s, seq!['P', 'R', 'N'])
    ||| spells(s, seq!['A', 'U', 'X']) || spells(s, seq!['N', 'U', 'L'])
    ||| spells(s, seq!['C', 'O', 'N', 'I', 'N', '$']) || spells(
        s,
        seq!['C', 'O', 'N', 'O', 'U', 'T', '$'],
    )
    ||| exists|d: char| #[trigger] is_port(s, d)
}

/// It is that of a port, with that digit.
pub open spec fn is_port(s: Seq<char>, d: char) -> bool {
    '0' <= d <= '9' && (spells(s, seq!['C', 'O', 'M', d]) || spells(s, seq!['L', 'P', 'T', d]))
}

/// A name before its first dot, or all of it.
pub open spec fn is_stem(s: Seq<char>, k: int) -> bool {
    &&& 0 <= k <= s.len()
    &&& k < s.len() ==> s[k] == '.'
    &&& forall|i: int| 0 <= i < k ==> #[trigger] s[i] != '.'
}

/// A name that the host can have: made of characters it can have, not all of them dots. On
/// Windows it does not end in a dot or a space, and is no device, with or without an ending.
pub open spec fn is_usable(s: Seq<char>, host: Host) -> bool {
    &&& exists|i: int| 0 <= i < s.len() && #[trigger] s[i] != '.'
    &&& forall|i: int| 0 <= i < s.len() ==> !is_bad(#[trigger] s[i], host)
    &&& host == Host::Windows ==> {
        &&& s[s.len() - 1] != '.' && s[s.len() - 1] != ' '
        &&& forall|k: int| #[trigger] is_stem(s, k) ==> !is_device(s.take(k))
    }
}

proof fn lemma_stem(s: Seq<char>, k: int)
    requires
        is_stem(s, k),
    ensures
        stem(s) == s.take(k),
    decreases s.len(),
{
    if k == 0 {
        assert(s.take(0) =~= seq![]);
    } else {
        let rest = s.skip(1);
        assert(s[0] != '.');
        assert forall|i: int| 0 <= i < k - 1 implies #[trigger] rest[i] != '.' by {
            assert(rest[i] == s[i + 1]);
        }
        lemma_stem(rest, k - 1);
        assert(seq![s[0]] + rest.take(k - 1) =~= s.take(k));
    }
}

proof fn lemma_stem_is(s: Seq<char>) -> (k: int)
    ensures
        is_stem(s, k),
    decreases s.len(),
{
    if s.len() == 0 || s[0] == '.' {
        0
    } else {
        let k = lemma_stem_is(s.skip(1));
        assert forall|i: int| 0 <= i < k + 1 implies #[trigger] s[i] != '.' by {
            if i > 0 {
                assert(s.skip(1)[i - 1] == s[i]);
            }
        }
        k + 1
    }
}

proof fn lemma_upper(c: char, w: char)
    requires
        ('A' <= w <= 'Z') || w == '$' || ('0' <= w <= '9'),
    ensures
        upper(c) == w <==> c == w || ('A' <= w <= 'Z' && c as int == w as int + 32),
{
}

proof fn lemma_spells(s: Seq<char>, word: Seq<char>)
    requires
        forall|i: int|
            0 <= i < word.len() ==> ('A' <= #[trigger] word[i] <= 'Z') || word[i] == '$' || (
            '0' <= word[i] <= '9'),
    ensures
        spells(s, word) <==> is_word(s, word),
{
    if spells(s, word) {
        assert forall|i: int| 0 <= i < s.len() implies upper(#[trigger] s[i]) == word[i] by {
            let w = word[i];
            assert(s[i] == w || s[i] as int == w as int + 32);
            lemma_upper(s[i], w);
        }
    }
    if is_word(s, word) {
        assert forall|i: int| 0 <= i < s.len() implies (#[trigger] s[i] == word[i] || ('A'
            <= word[i] <= 'Z' && s[i] as int == word[i] as int + 32)) by {
            let w = word[i];
            assert(upper(s[i]) == w);
            lemma_upper(s[i], w);
        }
    }
}

proof fn lemma_device(s: Seq<char>)
    ensures
        is_device(s) <==> is_reserved(s),
{
    lemma_spells(s, seq!['C', 'O', 'N']);
    lemma_spells(s, seq!['P', 'R', 'N']);
    lemma_spells(s, seq!['A', 'U', 'X']);
    lemma_spells(s, seq!['N', 'U', 'L']);
    lemma_spells(s, seq!['C', 'O', 'N', 'I', 'N', '$']);
    lemma_spells(s, seq!['C', 'O', 'N', 'O', 'U', 'T', '$']);
    if s.len() == 4 {
        let t = s.take(3);
        let (com, lpt) = (seq!['C', 'O', 'M'], seq!['L', 'P', 'T']);
        lemma_spells(t, com);
        lemma_spells(t, lpt);
        let d = s[3];
        if '0' <= d <= '9' {
            if is_word(t, com) {
                let w = seq!['C', 'O', 'M', d];
                assert forall|i: int| 0 <= i < s.len() implies (#[trigger] s[i] == w[i] || ('A'
                    <= w[i] <= 'Z' && s[i] as int == w[i] as int + 32)) by {
                    if i < 3 {
                        assert(t[i] == s[i] && com[i] == w[i]);
                    }
                }
                assert(spells(s, w));
                assert(is_port(s, d));
            }
            if is_word(t, lpt) {
                let w = seq!['L', 'P', 'T', d];
                assert forall|i: int| 0 <= i < s.len() implies (#[trigger] s[i] == w[i] || ('A'
                    <= w[i] <= 'Z' && s[i] as int == w[i] as int + 32)) by {
                    if i < 3 {
                        assert(t[i] == s[i] && lpt[i] == w[i]);
                    }
                }
                assert(spells(s, w));
                assert(is_port(s, d));
            }
        }
        assert forall|e: char| #[trigger] is_port(s, e) implies is_reserved(s) by {
            let w = if spells(s, seq!['C', 'O', 'M', e]) {
                seq!['C', 'O', 'M', e]
            } else {
                seq!['L', 'P', 'T', e]
            };
            assert(spells(s, w));
            assert(s[3] == w[3]);
            let v = w.take(3);
            assert forall|i: int| 0 <= i < t.len() implies (#[trigger] t[i] == v[i] || ('A' <= v[i]
                <= 'Z' && t[i] as int == v[i] as int + 32)) by {
                assert(t[i] == s[i] && v[i] == w[i]);
            }
            assert(v =~= com || v =~= lpt);
        }
    }
}

proof fn lemma_usable(s: Seq<char>, host: Host)
    ensures
        is_usable(s, host) <==> is_safe(s, host),
{
    assert forall|c: char| #[trigger] is_illegal(c, host) == is_bad(c, host) by {}
    let k = lemma_stem_is(s);
    lemma_stem(s, k);
    lemma_device(s.take(k));
    assert forall|j: int| #[trigger] is_stem(s, j) implies s.take(j) == s.take(k) by {
        lemma_stem(s, j);
    }
    if is_safe(s, host) {
        let i = choose|i: int| 0 <= i < s.len() && s[i] != '.';
        assert(s[i] != '.');
    }
}

/// Whatever a name is, the host can have what it becomes.
pub proof fn law_names_become_usable(name: Seq<char>, host: Host)
    ensures
        is_usable(host_name_of(name, host), host),
{
    law_host_name_is_safe(name, host);
    lemma_usable(host_name_of(name, host), host);
}

/// A name that the host can have stays as it is.
pub proof fn law_usable_names_are_kept(name: Seq<char>, host: Host)
    requires
        is_usable(name, host),
    ensures
        host_name_of(name, host) == name,
{
    lemma_usable(name, host);
    law_safe_names_are_untouched(name, host);
}

/// A name keeps its characters, but for those the host cannot have, which become underscores; at
/// most two more underscores stand before it and one after.
pub proof fn law_names_keep_their_characters(name: Seq<char>, host: Host) -> (r: (
    Seq<char>,
    Seq<char>,
    Seq<char>,
))
    ensures
        host_name_of(name, host) == r.0 + r.1 + r.2,
        r.0 == Seq::<char>::empty() || r.0 == seq!['_'] || r.0 == seq!['_', '_'],
        r.2 == Seq::<char>::empty() || r.2 == seq!['_'],
        host == Host::Unix ==> r.0.len() <= 1 && r.2.len() == 0,
        r.1.len() == name.len(),
        forall|i: int|
            0 <= i < name.len() ==> #[trigger] r.1[i] == if is_bad(name[i], host) {
                '_'
            } else {
                name[i]
            },
{
    assert forall|c: char| #[trigger] is_illegal(c, host) == is_bad(c, host) by {}
    let mid = cleaned(name, host);
    let b = undotted(mid);
    let one = if is_dots(mid) {
        seq!['_']
    } else {
        Seq::<char>::empty()
    };
    assert(b =~= one + mid);
    if host == Host::Unix {
        assert(host_name_of(name, host) =~= one + mid + Seq::<char>::empty());
        (one, mid, Seq::<char>::empty())
    } else {
        let post = if b.len() > 0 && (b.last() == '.' || b.last() == ' ') {
            seq!['_']
        } else {
            Seq::<char>::empty()
        };
        let c = b + post;
        assert(c =~= if b.len() > 0 && (b.last() == '.' || b.last() == ' ') {
            b.push('_')
        } else {
            b
        });
        let pre = if is_reserved(stem(c)) {
            seq!['_'] + one
        } else {
            one
        };
        assert(host_name_of(name, host) =~= pre + mid + post);
        assert(pre =~= Seq::<char>::empty() || pre =~= seq!['_'] || pre =~= seq!['_', '_']);
        (pre, mid, post)
    }
}

/// Of the names tried for an entry the first is its own, and each after it has a tilde and its
/// number behind it.
pub proof fn law_numbered_names(base: Seq<char>, n: u64)
    ensures
        candidate(base, 0) == base,
        n > 0 ==> {
            let s = candidate(base, n);
            &&& s.len() > base.len() + 1
            &&& s.take(base.len() as int) == base
            &&& s[base.len() as int] == '~'
            &&& is_numeral(s.skip(base.len() as int + 1), n as nat, 10)
        },
{
    reveal_strlit("~");
    if n > 0 {
        law_decimals(n as nat);
        let s = candidate(base, n);
        assert(s.take(base.len() as int) =~= base);
        assert(s.skip(base.len() as int + 1) =~= dec(n as nat));
    }
}

/// The name chosen is the first of them, from number `n` on, that the host does not take for one
/// that is taken; there is none only where all are taken.
pub proof fn law_the_first_free_name_is_chosen(
    base: Seq<char>,
    taken: Set<Seq<char>>,
    host: Host,
    n: u64,
    m: u64,
)
    requires
        n <= m,
        forall|k: u64|
            n <= k < m ==> taken.contains(folded(#[trigger] candidate(base, k), host)),
    ensures
        !taken.contains(folded(candidate(base, m), host)) ==> first_free(base, taken, host, n)
            == Some(candidate(base, m)),
        m == u64::MAX && taken.contains(folded(candidate(base, m), host)) ==> first_free(
            base,
            taken,
            host,
            n,
        ) is None,
    decreases m - n,
{
    if n < m {
        assert(taken.contains(folded(candidate(base, n), host)));
        law_the_first_free_name_is_chosen(base, taken, host, (n + 1) as u64, m);
    }
}

/// On Unix two names are the same only where they are equal.
pub proof fn law_unix_tells_names_apart(a: Seq<char>, b: Seq<char>)
    ensures
        folded(a, Host::Unix) == folded(b, Host::Unix) <==> a == b,
{
}

/// The temporary name of a file is its name with an ending, and never the name itself.
pub proof fn law_temporary_names(name: Seq<char>)
    ensures
        partial_of(name) != name,
        name.is_prefix_of(partial_of(name)),
        partial_of(name).skip(name.len() as int) == ".btrfs-peek-partial"@,
{
    reveal_strlit(".btrfs-peek-partial");
    assert(partial_of(name).take(name.len() as int) =~= name);
    assert(partial_of(name).skip(name.len() as int) =~= ".btrfs-peek-partial"@);
    assert(partial_of(name).len() > name.len());
}

} // verus!
