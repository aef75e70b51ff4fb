use std::cmp::Ordering;
use vstd::prelude::*;
use crate::byte_order::flip;

verus! {

/// The natural order of two strings, as lexical-sort defines it. Both strings
/// are read as their `lexical_text`. Where both hold a run of ASCII digits,
/// the shorter run comes first, and runs of one length compare by value (so
/// "13" comes before "002"). Other characters compare one by one, an
/// alphanumeric one after one that is not. Strings that read the same that way
/// compare by their bytes.
pub uninterp spec fn natural_order(a: Seq<char>, b: Seq<char>) -> Ordering;

/// The text that the natural order reads of a string: each alphanumeric
/// character in lower case and transliterated to ASCII.
pub uninterp spec fn lexical_text(s: Seq<char>) -> Seq<char>;

/// The length of the run of ASCII digits that ends just before position `i`.
pub open spec fn digit_run(t: Seq<char>, i: int) -> nat
    decreases i,
{
    if i <= 0 || i > t.len() {
        0
    } else if '0' <= t[i - 1] && t[i - 1] <= '9' {
        digit_run(t, i - 1) + 1
    } else {
        0
    }
}

/// No run of ASCII digits in `s`'s lexical text is longer than nineteen
/// digits, so that the natural comparison can read each run into a `u64`.
pub open spec fn natural_fits(s: Seq<char>) -> bool {
    forall|i: int| 0 <= i <= lexical_text(s).len() ==> #[trigger] digit_run(lexical_text(s), i) <= 19
}

/// Relies on lexical_sort::iter::iterate_lexical, the text that
/// natural_lexical_cmp reads: it depends on the string alone.
#[verifier::external_body]
fn lexical_string(s: &str) -> (r: String)
    ensures
        r@ == lexical_text(s@),
{
    lexical_sort::iter::iterate_lexical(s).collect()
}

/// Relies on lexical_sort::natural_lexical_cmp, which reads each digit run of
/// the lexical text into a `u64` (hence the bound on runs). Its outcome depends
/// on the two strings alone; it is `Equal` only when they are equal, as its last
/// step falls back on `str`'s own order; its steps are symmetric in the two
/// arguments; and, comparing runs by length and value and other characters one
/// by one, it is transitive.
#[verifier::external_body]
pub(crate) fn natural_cmp(a: &str, b: &str) -> (r: Ordering)
    requires
        natural_fits(a@),
        natural_fits(b@),
    ensures
        r == natural_order(a@, b@),
        r == flip(natural_order(b@, a@)),
        (r == Ordering::Equal) <==> a@ == b@,
        r == Ordering::Less ==> forall|z: Seq<char>|
            natural_fits(z) && #[trigger] natural_order(b@, z) != Ordering::Greater
                ==> natural_order(a@, z) == Ordering::Less,
        r == Ordering::Less ==> forall|z: Seq<char>|
            natural_fits(z) && #[trigger] natural_order(z, b@) != Ordering::Less
                ==> natural_order(z, a@) == Ordering::Greater,
{
    lexical_sort::natural_lexical_cmp(a, b)
}

/// Whether `s` can be compared in natural order: no run of ASCII digits in its
/// lexical text is longer than nineteen digits.
pub fn natural_key_fits(s: &str) -> (r: bool)
    ensures
        r == natural_fits(s@),
{
    let t = lexical_string(s);
    let mut run: u64 = 0;
    for c in it: t.as_str().chars()
        invariant
            it.seq() == lexical_text(s@),
            run == digit_run(lexical_text(s@), it.index()),
            run <= 19,
            forall|i: int| 0 <= i <= it.index() ==> #[trigger] digit_run(lexical_text(s@), i) <= 19,
    {
        if '0' <= c && c <= '9' {
            run = run + 1;
        } else {
            run = 0;
        }
        if run > 19 {
            assert(digit_run(lexical_text(s@), it.index() + 1) > 19);
            return false;
        }
    }
    true
}

} // verus!
