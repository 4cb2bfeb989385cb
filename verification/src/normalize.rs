//! Term normalization.
//!
//! A raw term is normalized by folding ASCII uppercase letters to lowercase,
//! treating every blank character as a plain space, trimming leading and
//! trailing blanks, and collapsing every inner run of blanks to a single
//! space. The same function is applied at build time and at query time, so
//! that a query can only miss an entry whose term genuinely differs.

use vstd::prelude::*;

verus! {

/// The blank characters that normalization folds into a plain space.
pub open spec fn is_space(c: char) -> bool {
    c == ' ' || c == '\t' || c == '\n' || c == '\r'
}

/// Folding of a single character: blanks become a plain space, ASCII
/// uppercase letters become the corresponding lowercase letter, and every
/// other character is unchanged.
pub open spec fn fold_char(c: char) -> char {
    if is_space(c) {
        ' '
    } else if 'A' <= c && c <= 'Z' {
        (((c as u32) + 32) as char)
    } else {
        c
    }
}

/// Normalization of the remaining input `s`, run from an intermediate state:
/// `acc` is the output emitted so far and `pending` records that a separating
/// space is owed before the next word character. A blank never reaches the
/// output directly; it only sets `pending` once some word character has been
/// emitted, so the result carries no leading, trailing or doubled spaces.
pub open spec fn norm_from(s: Seq<char>, acc: Seq<char>, pending: bool) -> Seq<char>
    decreases s.len(),
{
    if s.len() == 0 {
        acc
    } else {
        let fc = fold_char(s.first());
        if fc == ' ' {
            norm_from(s.drop_first(), acc, acc.len() > 0)
        } else if pending {
            norm_from(s.drop_first(), acc.push(' ').push(fc), false)
        } else {
            norm_from(s.drop_first(), acc.push(fc), false)
        }
    }
}

/// The normal form of a raw term.
pub open spec fn normalize_spec(s: Seq<char>) -> Seq<char> {
    norm_from(s, Seq::<char>::empty(), false)
}

/// A sequence is in normal form: every character is its own fold (no
/// uppercase ASCII letter, no blank other than a plain space), no two
/// adjacent spaces, and no space at either end.
pub open spec fn is_normal(t: Seq<char>) -> bool {
    &&& forall|i: int| 0 <= i < t.len() ==> #[trigger] fold_char(t[i]) == t[i]
    &&& forall|i: int| 0 < i < t.len() && #[trigger] t[i] == ' ' ==> t[i - 1] != ' '
    &&& t.len() > 0 ==> t[0] != ' '
    &&& t.len() > 0 ==> t[t.len() - 1] != ' '
}

/// A valid intermediate state of normalization: the output so far is itself
/// in normal form, and a space can be owed only once something was emitted.
pub open spec fn norm_state_ok(acc: Seq<char>, pending: bool) -> bool {
    is_normal(acc) && (pending ==> acc.len() > 0)
}

/// Appending a folded word character (and an owed space before it, when one
/// is owed) keeps the output in normal form.
proof fn lemma_step_keeps_normal(acc: Seq<char>, pending: bool, fc: char)
    requires
        norm_state_ok(acc, pending),
        fold_char(fc) == fc,
        fc != ' ',
    ensures
        pending ==> norm_state_ok(acc.push(' ').push(fc), false),
        !pending ==> norm_state_ok(acc.push(fc), false),
{
    assert(fold_char(' ') == ' ');
    if pending {
        let a2 = acc.push(' ').push(fc);
        assert forall|i: int| 0 <= i < a2.len() implies #[trigger] fold_char(a2[i]) == a2[i] by {
            if i < acc.len() {
                assert(a2[i] == acc[i]);
            }
        }
        assert forall|i: int| 0 < i < a2.len() && #[trigger] a2[i] == ' ' implies a2[i - 1]
            != ' ' by {
            if i < acc.len() {
                assert(a2[i] == acc[i] && a2[i - 1] == acc[i - 1]);
            } else if i == acc.len() {
                assert(a2[i - 1] == acc[acc.len() - 1]);
            }
        }
    } else {
        let a1 = acc.push(fc);
        assert forall|i: int| 0 <= i < a1.len() implies #[trigger] fold_char(a1[i]) == a1[i] by {
            if i < acc.len() {
                assert(a1[i] == acc[i]);
            }
        }
        assert forall|i: int| 0 < i < a1.len() && #[trigger] a1[i] == ' ' implies a1[i - 1]
            != ' ' by {
            if i < acc.len() {
                assert(a1[i] == acc[i] && a1[i - 1] == acc[i - 1]);
            }
        }
    }
}

/// From any valid intermediate state, normalization ends in a normal form.
proof fn lemma_norm_from_normal(s: Seq<char>, acc: Seq<char>, pending: bool)
    requires
        norm_state_ok(acc, pending),
    ensures
        is_normal(norm_from(s, acc, pending)),
    decreases s.len(),
{
    if s.len() > 0 {
        let fc = fold_char(s.first());
        assert(fold_char(fc) == fc);
        if fc == ' ' {
            lemma_norm_from_normal(s.drop_first(), acc, acc.len() > 0);
        } else if pending {
            lemma_step_keeps_normal(acc, pending, fc);
            lemma_norm_from_normal(s.drop_first(), acc.push(' ').push(fc), false);
        } else {
            lemma_step_keeps_normal(acc, pending, fc);
            lemma_norm_from_normal(s.drop_first(), acc.push(fc), false);
        }
    }
}

/// Law: the normal form of any sequence is in normal form.
pub proof fn lemma_normalize_normal(s: Seq<char>)
    ensures
        is_normal(normalize_spec(s)),
{
    lemma_norm_from_normal(s, Seq::<char>::empty(), false);
}

/// Running normalization over an input that is already in normal form (save
/// that it may begin with a space when the state allows one) appends that
/// input to the output unchanged, up to the owed separating space.
proof fn lemma_norm_from_of_normal(t: Seq<char>, acc: Seq<char>, pending: bool)
    requires
        forall|i: int| 0 <= i < t.len() ==> #[trigger] fold_char(t[i]) == t[i],
        forall|i: int| 0 < i < t.len() && #[trigger] t[i] == ' ' ==> t[i - 1] != ' ',
        t.len() > 0 ==> t[t.len() - 1] != ' ',
        norm_state_ok(acc, pending),
        t.len() > 0 && t[0] == ' ' ==> acc.len() > 0,
        pending && t.len() > 0 ==> t[0] != ' ',
    ensures
        norm_from(t, acc, pending) == if t.len() == 0 {
            acc
        } else if pending {
            acc + seq![' '] + t
        } else {
            acc + t
        },
    decreases t.len(),
{
    if t.len() > 0 {
        let c = t.first();
        let rest = t.drop_first();
        assert(fold_char(c) == c);
        assert(forall|i: int| 0 <= i < rest.len() ==> rest[i] == t[i + 1]);
        if c == ' ' {
            assert(!pending);
            assert(t.len() >= 2);
            assert(rest[0] != ' ');
            lemma_norm_from_of_normal(rest, acc, true);
            assert(acc + seq![' '] + rest =~= acc + t);
        } else if pending {
            lemma_step_keeps_normal(acc, pending, c);
            let acc2 = acc.push(' ').push(c);
            lemma_norm_from_of_normal(rest, acc2, false);
            if rest.len() == 0 {
                assert(acc2 =~= acc + seq![' '] + t);
            } else {
                assert(acc2 + rest =~= acc + seq![' '] + t);
            }
        } else {
            lemma_step_keeps_normal(acc, pending, c);
            let acc1 = acc.push(c);
            lemma_norm_from_of_normal(rest, acc1, false);
            if rest.len() == 0 {
                assert(acc1 =~= acc + t);
            } else {
                assert(acc1 + rest =~= acc + t);
            }
        }
    }
}

/// Law: a sequence already in normal form is its own normal form.
pub proof fn lemma_normal_fixed(t: Seq<char>)
    requires
        is_normal(t),
    ensures
        normalize_spec(t) == t,
{
    lemma_norm_from_of_normal(t, Seq::<char>::empty(), false);
    if t.len() > 0 {
        assert(Seq::<char>::empty() + t =~= t);
    }
}

/// Law: normalization is idempotent.
pub proof fn lemma_normalize_idempotent(s: Seq<char>)
    ensures
        normalize_spec(normalize_spec(s)) == normalize_spec(s),
{
    lemma_normalize_normal(s);
    lemma_normal_fixed(normalize_spec(s));
}

/// Running normalization never shortens the output, leaves it unchanged over
/// an all-blank remainder, and lengthens it over a remainder holding any
/// word character.
proof fn lemma_norm_from_len(s: Seq<char>, acc: Seq<char>, pending: bool)
    ensures
        norm_from(s, acc, pending).len() >= acc.len(),
        (forall|i: int| 0 <= i < s.len() ==> is_space(#[trigger] s[i])) ==> norm_from(
            s,
            acc,
            pending,
        ) == acc,
        (exists|i: int| 0 <= i < s.len() && !is_space(#[trigger] s[i])) ==> norm_from(
            s,
            acc,
            pending,
        ).len() > acc.len(),
    decreases s.len(),
{
    if s.len() > 0 {
        let fc = fold_char(s.first());
        let rest = s.drop_first();
        assert(forall|i: int| 0 <= i < rest.len() ==> rest[i] == s[i + 1]);
        if fc == ' ' {
            assert(is_space(s[0]));
            lemma_norm_from_len(rest, acc, acc.len() > 0);
            if exists|i: int| 0 <= i < s.len() && !is_space(#[trigger] s[i]) {
                let i = choose|i: int| 0 <= i < s.len() && !is_space(#[trigger] s[i]);
                assert(!is_space(rest[i - 1]));
            }
        } else if pending {
            lemma_norm_from_len(rest, acc.push(' ').push(fc), false);
        } else {
            lemma_norm_from_len(rest, acc.push(fc), false);
        }
    }
}

/// Law: a term normalizes to the empty string exactly when it holds no word
/// character at all — so those are precisely the inputs that insertion
/// skips and querying rejects.
pub proof fn lemma_normalize_empty_iff_blank(s: Seq<char>)
    ensures
        normalize_spec(s).len() == 0 <==> (forall|i: int|
            0 <= i < s.len() ==> is_space(#[trigger] s[i])),
{
    lemma_norm_from_len(s, Seq::<char>::empty(), false);
    if !(forall|i: int| 0 <= i < s.len() ==> is_space(#[trigger] s[i])) {
        let i = choose|i: int| 0 <= i < s.len() && !is_space(#[trigger] s[i]);
        assert(exists|i: int| 0 <= i < s.len() && !is_space(#[trigger] s[i]));
    }
}

/// Relies on String::push, which appends exactly the given character to the
/// end of the string.
#[verifier::external_body]
fn push_char(s: &mut String, c: char)
    ensures
        final(s)@ == old(s)@.push(c),
{
    s.push(c);
}

/// Normalize a raw term: fold ASCII uppercase to lowercase, trim leading and
/// trailing blanks, and collapse each inner run of blanks to a single space.
pub fn normalize(raw: &str) -> (r: String)
    ensures
        r@ == normalize_spec(raw@),
        is_normal(r@),
{
    let n = raw.unicode_len();
    let mut out = String::new();
    let mut pending = false;
    let mut i: usize = 0;
    proof {
        assert(raw@.skip(0) =~= raw@);
    }
    while i < n
        invariant
            n == raw@.len(),
            i <= n,
            normalize_spec(raw@) == norm_from(raw@.skip(i as int), out@, pending),
            norm_state_ok(out@, pending),
        decreases n - i,
    {
        let ghost s_i = raw@.skip(i as int);
        proof {
            assert(s_i.len() > 0);
            assert(s_i.first() == raw@[i as int]);
            assert(s_i.drop_first() =~= raw@.skip(i as int + 1));
        }
        let c = raw.get_char(i);
        let fc = if c == ' ' || c == '\t' || c == '\n' || c == '\r' {
            ' '
        } else if c >= 'A' && c <= 'Z' {
            (((c as u8) + 32) as char)
        } else {
            c
        };
        proof {
            assert(fc == fold_char(s_i.first()));
        }
        if fc == ' ' {
            pending = !out.as_str().is_empty();
        } else {
            proof {
                lemma_step_keeps_normal(out@, pending, fc);
            }
            if pending {
                push_char(&mut out, ' ');
            }
            push_char(&mut out, fc);
            pending = false;
        }
        i = i + 1;
    }
    proof {
        assert(raw@.skip(n as int) =~= Seq::<char>::empty());
        lemma_norm_from_normal(raw@, Seq::<char>::empty(), false);
    }
    out
}

} // verus!
