//! Command-line flag extraction.
//!
//! The library recognizes two flag syntaxes inside a whitespace-separated
//! input string: long flags introduced by a double dash (`--name`, whose name
//! is everything after the two dashes) and short flags introduced by a single
//! dash (`-abc`, where each character after the dash is its own flag). The
//! result is a deduplicated collection of flag names with no guaranteed order.

use vstd::prelude::*;

verus! {

/// Whitespace characters that separate tokens. The input is assumed to be
/// ASCII, so these are the ASCII whitespace characters.
pub open spec fn is_space(c: char) -> bool {
    c == ' ' || c == '\t' || c == '\n' || c == '\u{b}' || c == '\u{c}' || c == '\r'
}

/// Number of characters in the token at the start of `s`: the length of the
/// longest prefix of `s` that holds no whitespace character.
pub open spec fn token_len(s: Seq<char>) -> nat
    decreases s.len(),
{
    if s.len() == 0 || is_space(s[0]) {
        0
    } else {
        1 + token_len(s.drop_first())
    }
}

/// The token at the start of `s` is never longer than `s` itself.
proof fn lemma_token_len_le(s: Seq<char>)
    ensures
        token_len(s) <= s.len(),
    decreases s.len(),
{
    if s.len() != 0 && !is_space(s[0]) {
        lemma_token_len_le(s.drop_first());
    }
}

/// The whitespace-delimited tokens of `s`, in order. A run of whitespace is
/// one separator, so no empty tokens arise.
pub open spec fn tokens(s: Seq<char>) -> Seq<Seq<char>>
    decreases s.len(),
    via tokens_decreases
{
    if s.len() == 0 {
        seq![]
    } else if is_space(s[0]) {
        tokens(s.drop_first())
    } else {
        seq![s.take(token_len(s) as int)] + tokens(s.skip(token_len(s) as int))
    }
}

#[via_fn]
proof fn tokens_decreases(s: Seq<char>) {
    if s.len() != 0 && !is_space(s[0]) {
        lemma_token_len_le(s);
        assert(token_len(s) >= 1);
    }
}

/// The single-character names contributed by the characters of `t` from
/// position `k` on: each character is one short-flag name.
pub open spec fn short_flags_from(t: Seq<char>, k: int) -> Set<Seq<char>>
    decreases t.len() - k,
{
    if k < 0 || k >= t.len() {
        Set::empty()
    } else {
        short_flags_from(t, k + 1).insert(seq![t[k]])
    }
}

/// The flag names one token contributes. A token that does not start with a
/// dash contributes nothing; one that starts with two dashes contributes the
/// rest of the token as one long-flag name (for the token `--` that name is
/// the empty string, a documented quirk); one that starts with a single dash
/// contributes each following character as a short-flag name (so `-` alone
/// contributes nothing).
pub open spec fn token_flags(t: Seq<char>) -> Set<Seq<char>> {
    if t.len() == 0 || t[0] != '-' {
        Set::empty()
    } else if t.len() >= 2 && t[1] == '-' {
        Set::empty().insert(t.skip(2))
    } else {
        short_flags_from(t, 1)
    }
}

/// The union of the flag names contributed by each token of `ts`.
pub open spec fn tokens_flags(ts: Seq<Seq<char>>) -> Set<Seq<char>>
    decreases ts.len(),
{
    if ts.len() == 0 {
        Set::empty()
    } else {
        token_flags(ts[0]).union(tokens_flags(ts.drop_first()))
    }
}

/// The set of flag names present in the input `s`: the union, over the
/// whitespace-delimited tokens of `s`, of the names each token contributes.
pub open spec fn flag_set(s: Seq<char>) -> Set<Seq<char>> {
    tokens_flags(tokens(s))
}

/// The set of names that a sequence of flag strings holds.
pub open spec fn flag_views(fs: Seq<&str>) -> Set<Seq<char>>
    decreases fs.len(),
{
    if fs.len() == 0 {
        Set::empty()
    } else {
        flag_views(fs.drop_last()).insert(fs.last()@)
    }
}

/// No two entries of `fs` hold the same name.
pub open spec fn no_duplicate_names(fs: Seq<&str>) -> bool {
    forall|i: int, j: int| 0 <= i < j < fs.len() ==> fs[i]@ != fs[j]@
}

/// A name is in `flag_views(fs)` exactly when some entry of `fs` holds it.
pub proof fn lemma_flag_views_membership(fs: Seq<&str>, f: Seq<char>)
    ensures
        flag_views(fs).contains(f) <==> exists|i: int| 0 <= i < fs.len() && fs[i]@ == f,
    decreases fs.len(),
{
    if fs.len() > 0 {
        lemma_flag_views_membership(fs.drop_last(), f);
        if fs.last()@ == f {
            assert(fs[fs.len() - 1]@ == f);
        } else if flag_views(fs).contains(f) {
            let i = choose|i: int| 0 <= i < fs.drop_last().len() && fs.drop_last()[i]@ == f;
            assert(fs[i]@ == f);
        } else if exists|i: int| 0 <= i < fs.len() && fs[i]@ == f {
            let i = choose|i: int| 0 <= i < fs.len() && fs[i]@ == f;
            assert(fs.drop_last()[i]@ == f);
        }
    }
}

/// The token at the start of `s.skip(i)` runs exactly up to `j`, the position
/// of the next whitespace character (or the end of `s`).
proof fn lemma_token_len_at(s: Seq<char>, i: int, j: int)
    requires
        0 <= i <= j <= s.len(),
        forall|m: int| i <= m < j ==> !is_space(s[m]),
        j == s.len() || is_space(s[j]),
    ensures
        token_len(s.skip(i)) == j - i,
    decreases j - i,
{
    if i < j {
        lemma_token_len_at(s, i + 1, j);
        assert(s.skip(i).drop_first() =~= s.skip(i + 1));
        assert(!is_space(s.skip(i)[0]));
    } else {
        if j < s.len() {
            assert(is_space(s.skip(i)[0]));
        }
    }
}

/// Skipping a leading whitespace character leaves the tokens unchanged.
proof fn lemma_tokens_skip_space(s: Seq<char>, i: int)
    requires
        0 <= i < s.len(),
        is_space(s[i]),
    ensures
        tokens(s.skip(i)) == tokens(s.skip(i + 1)),
{
    assert(is_space(s.skip(i)[0]));
    assert(s.skip(i).drop_first() =~= s.skip(i + 1));
}

/// When a token spans exactly the positions `i` up to `j`, the tokens of the
/// rest of the input are that token followed by the tokens after it.
proof fn lemma_tokens_at_token(s: Seq<char>, i: int, j: int)
    requires
        0 <= i < j <= s.len(),
        forall|m: int| i <= m < j ==> !is_space(s[m]),
        j == s.len() || is_space(s[j]),
    ensures
        tokens(s.skip(i)) == seq![s.subrange(i, j)] + tokens(s.skip(j)),
{
    lemma_token_len_at(s, i, j);
    assert(!is_space(s.skip(i)[0]));
    assert(s.skip(i).take(j - i) =~= s.subrange(i, j));
    assert(s.skip(i).skip(j - i) =~= s.skip(j));
}

/// The flags of a token list are the first token's flags joined with the
/// flags of the remaining tokens.
proof fn lemma_tokens_flags_cons(t: Seq<char>, ts: Seq<Seq<char>>)
    ensures
        tokens_flags(seq![t] + ts) == token_flags(t).union(tokens_flags(ts)),
{
    assert((seq![t] + ts)[0] == t);
    assert((seq![t] + ts).drop_first() =~= ts);
}

/// Character-by-character string equality: true exactly when the two strings
/// read as the same sequence of characters.
fn str_eq(a: &str, b: &str) -> (r: bool)
    ensures
        r == (a@ == b@),
{
    let a_len = a.unicode_len();
    let b_len = b.unicode_len();
    if a_len != b_len {
        return false;
    }
    let mut i: usize = 0;
    while i < a_len
        invariant
            a_len == a@.len(),
            a_len == b@.len(),
            i <= a_len,
            forall|m: int| 0 <= m < i ==> a@[m] == b@[m],
        decreases a_len - i,
    {
        if a.get_char(i) != b.get_char(i) {
            return false;
        }
        i += 1;
    }
    proof {
        assert(a@ =~= b@);
    }
    true
}

/// Appends `name` unless an entry with the same characters is already there,
/// so the vector keeps exactly one entry per name.
fn push_unique<'a>(flags: &mut Vec<&'a str>, name: &'a str)
    requires
        no_duplicate_names(old(flags)@),
    ensures
        no_duplicate_names(final(flags)@),
        flag_views(final(flags)@) == flag_views(old(flags)@).insert(name@),
{
    let n = flags.len();
    let mut i: usize = 0;
    while i < n
        invariant
            flags@ == old(flags)@,
            no_duplicate_names(flags@),
            n == flags@.len(),
            i <= n,
            forall|m: int| 0 <= m < i ==> flags@[m]@ != name@,
        decreases n - i,
    {
        if str_eq(flags[i], name) {
            proof {
                lemma_flag_views_membership(flags@, name@);
                assert(flag_views(flags@).insert(name@) =~= flag_views(flags@));
            }
            return ;
        }
        i += 1;
    }
    flags.push(name);
    proof {
        assert(flags@.drop_last() =~= old(flags)@);
    }
}

/// Whether `c` is one of the whitespace separators.
fn is_space_char(c: char) -> (r: bool)
    ensures
        r == is_space(c),
{
    c == ' ' || c == '\t' || c == '\n' || c == '\u{b}' || c == '\u{c}' || c == '\r'
}

/// Returns a vector with all flags in the given input: one entry per distinct
/// flag name, in no particular order.
///
/// A whitespace-delimited token starting with two dashes contributes
/// everything after them as one long flag (the token `--` contributes the
/// empty name, a documented quirk); a token starting with a single dash
/// contributes each following character as its own short flag (`-` alone
/// contributes nothing); any other token contributes nothing. It assumes that
/// all characters in the input are convertible to a single u8 integer like
/// ASCII.
pub fn get_flags<'a>(input: &'a str) -> (flags: Vec<&'a str>)
    ensures
        no_duplicate_names(flags@),
        flag_views(flags@) == flag_set(input@),
{
    let n = input.unicode_len();
    let mut flags: Vec<&'a str> = Vec::new();
    let mut i: usize = 0;
    proof {
        assert(input@.skip(0) =~= input@);
        assert(flag_views(flags@).union(flag_set(input@)) =~= flag_set(input@));
    }
    while i < n
        invariant
            n == input@.len(),
            i <= n,
            no_duplicate_names(flags@),
            flag_views(flags@).union(tokens_flags(tokens(input@.skip(i as int)))) == flag_set(
                input@,
            ),
        decreases n - i,
    {
        let c = input.get_char(i);
        if is_space_char(c) {
            proof {
                lemma_tokens_skip_space(input@, i as int);
            }
            i += 1;
        } else {
            let mut j: usize = i + 1;
            while j < n && !is_space_char(input.get_char(j))
                invariant
                    n == input@.len(),
                    i < j <= n,
                    forall|m: int| i <= m < j ==> !is_space(input@[m]),
                decreases n - j,
            {
                j += 1;
            }
            let ghost t = input@.subrange(i as int, j as int);
            proof {
                lemma_tokens_at_token(input@, i as int, j as int);
                lemma_tokens_flags_cons(t, tokens(input@.skip(j as int)));
            }
            if c != '-' {
                proof {
                    assert(t[0] != '-');
                    assert(flag_views(flags@).union(
                        tokens_flags(tokens(input@.skip(j as int))),
                    ) =~= flag_set(input@));
                }
                i = j;
            } else if j - i >= 2 && input.get_char(i + 1) == '-' {
                let name = input.substring_char(i + 2, j);
                proof {
                    assert(t.len() >= 2 && t[0] == '-' && t[1] == '-');
                    assert(name@ =~= t.skip(2));
                    assert(token_flags(t) == Set::empty().insert(t.skip(2)));
                    let ghost rest = tokens_flags(tokens(input@.skip(j as int)));
                    assert(flag_views(flags@).insert(name@).union(rest) =~= flag_set(input@));
                }
                push_unique(&mut flags, name);
                i = j;
            } else {
                proof {
                    assert(t[0] == '-' && !(t.len() >= 2 && t[1] == '-'));
                    assert(token_flags(t) == short_flags_from(t, 1));
                }
                let mut k: usize = i + 1;
                while k < j
                    invariant
                        n == input@.len(),
                        i < j <= n,
                        i + 1 <= k <= j,
                        t == input@.subrange(i as int, j as int),
                        no_duplicate_names(flags@),
                        flag_views(flags@).union(
                            short_flags_from(t, k as int - i as int).union(
                                tokens_flags(tokens(input@.skip(j as int))),
                            ),
                        ) == flag_set(input@),
                    decreases j - k,
                {
                    let name = input.substring_char(k, k + 1);
                    proof {
                        assert(name@ =~= seq![t[k as int - i as int]]);
                        let ghost rest = tokens_flags(tokens(input@.skip(j as int)));
                        assert(flag_views(flags@).insert(name@).union(
                            short_flags_from(t, k as int + 1 - i as int).union(rest),
                        ) =~= flag_set(input@));
                    }
                    push_unique(&mut flags, name);
                    k += 1;
                }
                proof {
                    assert(short_flags_from(t, j as int - i as int) =~= Set::<Seq<char>>::empty());
                    assert(flag_views(flags@).union(
                        tokens_flags(tokens(input@.skip(j as int))),
                    ) =~= flag_set(input@));
                }
                i = j;
            }
        }
    }
    proof {
        assert(input@.skip(n as int) =~= Seq::<char>::empty());
        assert(flag_views(flags@) =~= flag_set(input@));
    }
    flags
}

/// Law: the extracted set is a function of the input alone, so any two
/// results for the same input hold the same set of flag names, whatever
/// order their entries come in.
pub proof fn lemma_same_input_same_flags(a: Seq<&str>, b: Seq<&str>, s: Seq<char>)
    requires
        flag_views(a) == flag_set(s),
        flag_views(b) == flag_set(s),
    ensures
        flag_views(a) == flag_views(b),
{
}

/// Law: a token that does not start with a dash contributes no flag names.
pub proof fn lemma_dashless_token_contributes_nothing(t: Seq<char>)
    requires
        t.len() == 0 || t[0] != '-',
    ensures
        token_flags(t) == Set::<Seq<char>>::empty(),
{
}

} // verus!
