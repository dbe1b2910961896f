//! The name sanitizer: maps an arbitrary attribute name to an identifier-safe
//! symbolic name by a fixed, ordered set of character substitutions.

use vstd::prelude::*;

verus! {

/// The exact attribute name that is special-cased to the word "Unique".
pub open spec fn one_of_one() -> Seq<char> {
    seq!['1', ':', '1']
}

/// The symbolic name produced for the special-cased attribute name.
pub open spec fn unique_word() -> Seq<char> {
    seq!['U', 'n', 'i', 'q', 'u', 'e']
}

/// What a single character of the input contributes to the sanitized output:
/// spaces and apostrophes are removed, a few punctuation characters are
/// replaced by identifier-safe text, and every other character is kept.
pub open spec fn replacement_of(c: char) -> Seq<char> {
    if c == ' ' || c == '\'' {
        Seq::<char>::empty()
    } else if c == ':' || c == '-' {
        seq!['_']
    } else if c == '$' {
        seq!['S']
    } else if c == '=' {
        seq!['i', 's']
    } else if c == '\u{221E}' {
        seq!['I', 'n', 'f', 'i', 'n', 'i', 't', 'y']
    } else if c == '+' {
        seq!['P', 'l', 'u', 's']
    } else {
        seq![c]
    }
}

/// The character substitutions applied to a whole name, one character at a
/// time, left to right.
pub open spec fn replace_all(s: Seq<char>) -> Seq<char>
    decreases s.len(),
{
    if s.len() == 0 {
        Seq::<char>::empty()
    } else {
        replacement_of(s[0]) + replace_all(s.drop_first())
    }
}

/// A decimal digit, as the leading-character rule understands it.
pub open spec fn is_decimal_digit(c: char) -> bool {
    ('0' as u32) <= (c as u32) && (c as u32) <= ('9' as u32)
}

/// The sanitizer: the special case first, then the substitutions, then an
/// underscore prefix whenever the substituted text starts with a digit.
pub open spec fn spec_sanitize(s: Seq<char>) -> Seq<char> {
    if s == one_of_one() {
        unique_word()
    } else {
        let r = replace_all(s);
        if r.len() > 0 && is_decimal_digit(r[0]) {
            seq!['_'] + r
        } else {
            r
        }
    }
}

/// Substituting distributes over concatenation.
proof fn lemma_replace_all_concat(a: Seq<char>, b: Seq<char>)
    ensures
        replace_all(a + b) == replace_all(a) + replace_all(b),
    decreases a.len(),
{
    if a.len() == 0 {
        assert(a + b =~= b);
        assert(replace_all(a) + replace_all(b) =~= replace_all(b));
    } else {
        assert((a + b)[0] == a[0]);
        assert((a + b).drop_first() =~= a.drop_first() + b);
        lemma_replace_all_concat(a.drop_first(), b);
        assert(replacement_of(a[0]) + (replace_all(a.drop_first()) + replace_all(b)) =~= (
        replacement_of(a[0]) + replace_all(a.drop_first())) + replace_all(b));
    }
}

/// Extending the input by one character extends the substituted text by that
/// character's replacement.
proof fn lemma_replace_all_step(s: Seq<char>, i: int)
    requires
        0 <= i < s.len(),
    ensures
        replace_all(s.take(i + 1)) == replace_all(s.take(i)) + replacement_of(s[i]),
{
    assert(s.take(i + 1) =~= s.take(i) + seq![s[i]]);
    lemma_replace_all_concat(s.take(i), seq![s[i]]);
    assert(seq![s[i]].drop_first() =~= Seq::<char>::empty());
    assert(replace_all(Seq::<char>::empty()) == Seq::<char>::empty());
    assert(replace_all(seq![s[i]]) =~= replacement_of(s[i]));
}

/// A character the substitutions leave alone.
pub open spec fn keeps_char(c: char) -> bool {
    replacement_of(c) == seq![c]
}

/// A name that is already safe: it is not the special-cased name, no character
/// of it is substituted, and it does not start with a decimal digit.
pub open spec fn is_safe(s: Seq<char>) -> bool {
    &&& s != one_of_one()
    &&& forall|i: int| 0 <= i < s.len() ==> keeps_char(#[trigger] s[i])
    &&& s.len() > 0 ==> !is_decimal_digit(s[0])
}

/// Substitution leaves a name alone when every character of it is kept.
proof fn lemma_replace_all_identity(s: Seq<char>)
    requires
        forall|i: int| 0 <= i < s.len() ==> keeps_char(#[trigger] s[i]),
    ensures
        replace_all(s) == s,
    decreases s.len(),
{
    if s.len() == 0 {
        assert(replace_all(s) =~= s);
    } else {
        assert(forall|i: int|
            0 <= i < s.drop_first().len() ==> keeps_char(#[trigger] s.drop_first()[i]));
        lemma_replace_all_identity(s.drop_first());
        assert(replace_all(s) =~= s);
    }
}

/// The sanitizer returns a safe name unchanged.
pub proof fn lemma_sanitize_safe_identity(s: Seq<char>)
    requires
        is_safe(s),
    ensures
        spec_sanitize(s) == s,
{
    lemma_replace_all_identity(s);
}

/// The sanitizer is idempotent on names that are already safe: a second
/// application changes nothing.
pub proof fn lemma_sanitize_idempotent(s: Seq<char>)
    requires
        is_safe(s),
    ensures
        spec_sanitize(spec_sanitize(s)) == spec_sanitize(s),
{
    lemma_sanitize_safe_identity(s);
}

/// Relies on `Iterator::collect` for `String`: the collected string holds
/// exactly the given characters, in order.
#[verifier::external_body]
fn chars_to_string(cs: &Vec<char>) -> (r: String)
    ensures
        r@ == cs@,
{
    cs.iter().collect()
}

/// Maps an attribute name to its identifier-safe symbolic name: "1:1" becomes
/// "Unique"; otherwise each character is substituted left to right, and an
/// underscore is prepended when the substituted text starts with a digit.
pub fn sanitize(name: &str) -> (r: String)
    ensures
        r@ == spec_sanitize(name@),
{
    let n = name.unicode_len();
    if n == 3 && name.get_char(0) == '1' && name.get_char(1) == ':' && name.get_char(2) == '1' {
        proof {
            assert(name@ =~= one_of_one());
        }
        let r = String::from_str("Unique");
        proof {
            reveal_strlit("Unique");
            assert(r@ =~= unique_word());
        }
        return r;
    }
    proof {
        if name@ == one_of_one() {
            assert(name@.len() == 3);
            assert(name@[0] == '1' && name@[1] == ':' && name@[2] == '1');
        }
    }
    let mut out: Vec<char> = Vec::new();
    let mut i: usize = 0;
    while i < n
        invariant
            i <= n,
            n == name@.len(),
            out@ == replace_all(name@.take(i as int)),
        decreases n - i,
    {
        let c = name.get_char(i);
        if c == ' ' || c == '\'' {
        } else if c == ':' || c == '-' {
            out.push('_');
        } else if c == '$' {
            out.push('S');
        } else if c == '=' {
            out.push('i');
            out.push('s');
        } else if c == '\u{221E}' {
            out.push('I');
            out.push('n');
            out.push('f');
            out.push('i');
            out.push('n');
            out.push('i');
            out.push('t');
            out.push('y');
        } else if c == '+' {
            out.push('P');
            out.push('l');
            out.push('u');
            out.push('s');
        } else {
            out.push(c);
        }
        proof {
            lemma_replace_all_step(name@, i as int);
            assert(out@ =~= replace_all(name@.take(i as int + 1)));
        }
        i = i + 1;
    }
    proof {
        assert(name@.take(n as int) =~= name@);
    }
    let needs_prefix = if out.len() > 0 {
        let c0 = out[0];
        (c0 as u32) >= ('0' as u32) && (c0 as u32) <= ('9' as u32)
    } else {
        false
    };
    if needs_prefix {
        let mut prefixed: Vec<char> = Vec::new();
        prefixed.push('_');
        let mut j: usize = 0;
        while j < out.len()
            invariant
                j <= out@.len(),
                prefixed@ == seq!['_'] + out@.take(j as int),
            decreases out@.len() - j,
        {
            prefixed.push(out[j]);
            proof {
                assert(seq!['_'] + out@.take(j as int + 1) =~= (seq!['_'] + out@.take(
                    j as int,
                )).push(out@[j as int]));
            }
            j = j + 1;
        }
        proof {
            assert(out@.take(out@.len() as int) =~= out@);
        }
        chars_to_string(&prefixed)
    } else {
        chars_to_string(&out)
    }
}

} // verus!
