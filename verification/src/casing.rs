//! Locale-independent Unicode case mapping of single characters, and the
//! spec-level description of case-randomized text.

use vstd::prelude::*;

verus! {

/// The full Unicode uppercase mapping of `c`: one or more characters.
pub uninterp spec fn upper_of(c: char) -> Seq<char>;

/// The full Unicode lowercase mapping of `c`: one or more characters.
pub uninterp spec fn lower_of(c: char) -> Seq<char>;

/// Relies on char::to_uppercase: the full, locale-independent Unicode
/// uppercase mapping of `c`, one or more characters, a function of `c` alone.
#[verifier::external_body]
pub(crate) fn char_upper(c: char) -> (r: String)
    ensures
        r@ == upper_of(c),
        r@.len() >= 1,
{
    c.to_uppercase().to_string()
}

/// Relies on char::to_lowercase: the full, locale-independent Unicode
/// lowercase mapping of `c`, one or more characters, a function of `c` alone.
#[verifier::external_body]
pub(crate) fn char_lower(c: char) -> (r: String)
    ensures
        r@ == lower_of(c),
        r@.len() >= 1,
{
    c.to_lowercase().to_string()
}

/// The case-mapped form of `c` selected by one boolean draw: the uppercase
/// mapping when `up` holds, the lowercase mapping otherwise.
pub open spec fn case_of(c: char, up: bool) -> Seq<char> {
    if up {
        upper_of(c)
    } else {
        lower_of(c)
    }
}

/// The concatenation, in input order, of each character's case-mapped form,
/// the case of the character at position `i` selected by `bs[i]`.
pub open spec fn cased(s: Seq<char>, bs: Seq<bool>) -> Seq<char>
    recommends
        s.len() == bs.len(),
    decreases s.len(),
{
    if s.len() == 0 {
        Seq::empty()
    } else {
        case_of(s[0], bs[0]) + cased(s.drop_first(), bs.drop_first())
    }
}

/// Extending the input by one character extends the case-randomized text by
/// that character's case-mapped form.
pub proof fn lemma_cased_push(s: Seq<char>, bs: Seq<bool>, c: char, b: bool)
    requires
        s.len() == bs.len(),
    ensures
        cased(s.push(c), bs.push(b)) == cased(s, bs) + case_of(c, b),
    decreases s.len(),
{
    if s.len() == 0 {
        assert(s.push(c).drop_first() =~= s);
        assert(bs.push(b).drop_first() =~= bs);
        assert(cased(s.push(c), bs.push(b)) =~= cased(s, bs) + case_of(c, b));
    } else {
        assert(s.push(c).drop_first() =~= s.drop_first().push(c));
        assert(bs.push(b).drop_first() =~= bs.drop_first().push(b));
        lemma_cased_push(s.drop_first(), bs.drop_first(), c, b);
        assert(cased(s.push(c), bs.push(b)) =~= cased(s, bs) + case_of(c, b));
    }
}

} // verus!
